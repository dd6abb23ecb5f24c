//! Applying a planned diff to the old document gives the new document.

use vstd::prelude::*;

use crate::consumer::applier::{
    apply_message, run_actions,
    child_at, edit_from, edit_leaf, entry_index, has_entry, lemma_entry_index, lemma_keys_unique,
    lemma_map_with_existing, lemma_remove_keeps_order, run_from, step,
    value_from, with_child, EditView, Outcome,
};
use crate::document::{entries_index, index_lookup, index_of, items_index};
use crate::message::packed::frame::dec_message;
use crate::message::packed::roundtrip::lemma_message_roundtrip;
use crate::producer::planning::planned;
use crate::consumer::Consumer;
use crate::error::{ErrorKind, Result};
use crate::producer::{packed_as, produced, Producer};
use crate::producer::differ::{array_deletes, concat, diff_ok, direct_action, leaf_ok, map_deletes, old_entry, unchanged};
use crate::patch::{ActionView, SegmentView};
use crate::protocol::consts::SUPPORTED_PROTOCOL;
use crate::error::{lemma_lex_order_antisym, lemma_lex_order_eq, lex_order};
use crate::value::{canonical, key_bytes, keys_ascending, kind_of, map_from, map_with, view_digest, ValueView};

verus! {

/// `v` with the value at the segments of `p` from position `i` on set to
/// `w`.
pub open spec fn set_from(v: ValueView, p: Seq<SegmentView>, i: int, w: ValueView) -> ValueView
    decreases p.len() - i,
{
    if i >= p.len() {
        w
    } else {
        match child_at(v, p[i]) {
            Ok(c) => with_child(v, p[i], set_from(c, p, i + 1, w)),
            Err(_) => v,
        }
    }
}

/// Following one more segment.
pub proof fn lemma_value_push(v: ValueView, p: Seq<SegmentView>, s: SegmentView, i: int)
    requires
        0 <= i <= p.len(),
    ensures
        value_from(v, p.push(s), i) == match value_from(v, p, i) {
            Ok(x) => child_at(x, s),
            Err(k) => Outcome::<ValueView>::Err(k),
        },
    decreases p.len() - i,
{
    let q = p.push(s);
    if i < p.len() {
        assert(q[i] == p[i]);
        match child_at(v, p[i]) {
            Ok(c) => lemma_value_push(c, p, s, i + 1),
            Err(_) => {},
        }
    } else {
        assert(q[i] == s);
        match child_at(v, s) {
            Ok(c) => {
                assert(value_from(c, q, i + 1) == Outcome::<ValueView>::Ok(c));
            },
            Err(_) => {},
        }
    }
}

/// An edit one segment below an existing value edits that value there.
pub proof fn lemma_edit_push(v: ValueView, p: Seq<SegmentView>, s: SegmentView, e: EditView, i: int)
    requires
        0 <= i <= p.len(),
        value_from(v, p, i) is Ok,
    ensures
        edit_from(v, p.push(s), i, e) == match edit_leaf(value_from(v, p, i)->Ok_0, s, e) {
            Ok(x2) => Outcome::<ValueView>::Ok(set_from(v, p, i, x2)),
            Err(k) => Outcome::<ValueView>::Err(k),
        },
    decreases p.len() - i,
{
    let q = p.push(s);
    if i < p.len() {
        assert(q[i] == p[i]);
        let c = child_at(v, p[i])->Ok_0;
        lemma_edit_push(c, p, s, e, i + 1);
    } else {
        assert(q[i] == s);
    }
}

/// Setting one segment below an existing value sets its child there.
pub proof fn lemma_set_push(v: ValueView, p: Seq<SegmentView>, s: SegmentView, w: ValueView, i: int)
    requires
        0 <= i <= p.len(),
        value_from(v, p, i) is Ok,
        child_at(value_from(v, p, i)->Ok_0, s) is Ok,
    ensures
        set_from(v, p.push(s), i, w) == set_from(
            v,
            p,
            i,
            with_child(value_from(v, p, i)->Ok_0, s, w),
        ),
    decreases p.len() - i,
{
    let q = p.push(s);
    if i < p.len() {
        assert(q[i] == p[i]);
        let c = child_at(v, p[i])->Ok_0;
        lemma_set_push(c, p, s, w, i + 1);
    } else {
        assert(q[i] == s);
        let c = child_at(v, s)->Ok_0;
        assert(set_from(c, q, i + 1, w) == w);
    }
}

/// A child set in place is found there.
pub proof fn lemma_child_with(v: ValueView, s: SegmentView, w: ValueView)
    requires
        child_at(v, s) is Ok,
    ensures
        child_at(with_child(v, s, w), s) == Outcome::<ValueView>::Ok(w),
{
    match s {
        SegmentView::Key(k) => {
            let m = v->Mapping_0;
            let i = entry_index(m, k);
            lemma_entry_index(m, k);
            let m2 = m.update(i, (k, w));
            lemma_entry_index(m2, k);
            assert(m2[i].0 == k);
            assert forall|j: int| 0 <= j < i implies #[trigger] m2[j].0 != k by {
                assert(m2[j] == m[j]);
            }
        },
        SegmentView::Index(_) => {},
    }
}

/// Law: what each edit does to the map it ends in. Adding under a key sets
/// that key to the value and keeps the other keys and values; replacing an
/// existing key's value does the same; deleting an existing key removes it
/// and keeps the others.
#[verifier::spinoff_prover]
pub proof fn lemma_edit_map(m: Seq<(Seq<char>, ValueView)>, k: Seq<char>, x: ValueView)
    ensures
        edit_leaf(ValueView::Mapping(m), SegmentView::Key(k), EditView::Add(x)) matches Outcome::Ok(
            ValueView::Mapping(m2),
        ) && map_view(m2) == map_view(m).insert(k, x),
        has_entry(m, k) ==> (edit_leaf(ValueView::Mapping(m), SegmentView::Key(k), EditView::Replace(x))
            matches Outcome::Ok(ValueView::Mapping(m2)) && map_view(m2) == map_view(m).insert(k, x)),
        has_entry(m, k) && keys_ascending(m) ==> (edit_leaf(
            ValueView::Mapping(m),
            SegmentView::Key(k),
            EditView::Delete,
        ) matches Outcome::Ok(ValueView::Mapping(m2)) && map_view(m2) == map_view(m).remove(k)),
{
    lemma_map_view_with(m, k, x);
    if has_entry(m, k) {
        lemma_entry_index(m, k);
        let i = entry_index(m, k);
        let m2 = m.update(i, (k, x));
        lemma_entry_index(m2, k);
        assert forall|j: int| 0 <= j < i implies #[trigger] m2[j].0 != k by {
            assert(m2[j] == m[j]);
        }
        assert(m2[i].0 == k);
        assert(has_entry(m2, k));
        assert(entry_index(m2, k) == i);
        assert forall|q: Seq<char>| q != k implies has_entry(m2, q) == has_entry(m, q) && (has_entry(m, q)
            ==> m2[entry_index(m2, q)] == m[entry_index(m, q)]) by {
            lemma_entry_index(m, q);
            lemma_entry_index(m2, q);
            assert forall|j: int| 0 <= j < m.len() implies (#[trigger] m2[j]).0 == q <==> m[j].0 == q by {
                if j != i {
                    assert(m2[j] == m[j]);
                }
            }
            if has_entry(m, q) {
                assert(m2[entry_index(m, q)].0 == q);
            }
            if has_entry(m2, q) {
                assert(m[entry_index(m2, q)].0 == q);
            }
        }
        assert(map_view(m2) =~= map_view(m).insert(k, x));
        if keys_ascending(m) {
            lemma_map_view_remove(m, k);
        }
    }
}

/// Law: what each edit does to the array it ends in. Adding at a position
/// up to the length inserts the value there and shifts the later items by
/// one; replacing an existing item sets it and keeps the others; deleting an
/// existing item removes it and shifts the later items back by one.
pub proof fn lemma_edit_array(a: Seq<ValueView>, n: nat, x: ValueView)
    ensures
        n <= a.len() ==> (edit_leaf(ValueView::Array(a), SegmentView::Index(n), EditView::Add(x))
            matches Outcome::Ok(ValueView::Array(a2)) && a2.len() == a.len() + 1 && a2[n as int] == x
            && (forall|j: int| 0 <= j < n ==> #[trigger] a2[j] == a[j]) && (forall|j: int|
            n < j < a2.len() ==> #[trigger] a2[j] == a[j - 1])),
        n < a.len() ==> (edit_leaf(ValueView::Array(a), SegmentView::Index(n), EditView::Replace(x))
            matches Outcome::Ok(ValueView::Array(a2)) && a2.len() == a.len() && a2[n as int] == x && (
        forall|j: int| 0 <= j < a.len() && j != n ==> #[trigger] a2[j] == a[j])),
        n < a.len() ==> (edit_leaf(ValueView::Array(a), SegmentView::Index(n), EditView::Delete)
            matches Outcome::Ok(ValueView::Array(a2)) && a2.len() + 1 == a.len() && (forall|j: int|
            0 <= j < n ==> #[trigger] a2[j] == a[j]) && (forall|j: int|
            n <= j < a2.len() ==> #[trigger] a2[j] == a[j + 1])),
{
    if n <= a.len() {
        let a2 = a.insert(n as int, x);
        assert forall|j: int| n < j < a2.len() implies #[trigger] a2[j] == a[j - 1] by {}
    }
    if n < a.len() {
        let a3 = a.remove(n as int);
        assert forall|j: int| n <= j < a3.len() implies #[trigger] a3[j] == a[j + 1] by {}
    }
}

/// Law: a map built from entries keeps its keys in ascending byte order,
/// holds exactly the keys given, and under each key the value of the last
/// entry given with it.
#[verifier::spinoff_prover]
pub proof fn lemma_map_from(es: Seq<(Seq<char>, ValueView)>)
    ensures
        keys_ascending(map_from(es)),
        forall|k: Seq<char>|
            #[trigger] map_view(map_from(es)).contains_key(k) <==> exists|i: int| 0 <= i < es.len() && es[i].0 == k,
        forall|i: int|
            0 <= i < es.len() && (forall|j: int| i < j < es.len() ==> es[j].0 != es[i].0) ==> #[trigger] map_view(
                map_from(es),
            )[es[i].0] == es[i].1,
    decreases es.len(),
{
    if es.len() > 0 {
        let init = es.drop_last();
        let e = es.last();
        lemma_map_from(init);
        crate::value::lemma_map_with(map_from(init), e.0, e.1);
        lemma_map_view_with(map_from(init), e.0, e.1);
        assert(map_from(es) == map_with(map_from(init), e.0, e.1));
        assert forall|k: Seq<char>|
            #[trigger] map_view(map_from(es)).contains_key(k) <==> exists|i: int| 0 <= i < es.len() && es[i].0 == k by {
            if map_view(map_from(es)).contains_key(k) && k != e.0 {
                let i = choose|i: int| 0 <= i < init.len() && init[i].0 == k;
                assert(es[i] == init[i]);
            }
            if exists|i: int| 0 <= i < es.len() && es[i].0 == k {
                let i = choose|i: int| 0 <= i < es.len() && es[i].0 == k;
                if i < init.len() {
                    assert(init[i] == es[i]);
                }
            }
        }
        assert forall|i: int|
            0 <= i < es.len() && (forall|j: int| i < j < es.len() ==> es[j].0 != es[i].0) implies #[trigger] map_view(
                map_from(es),
            )[es[i].0] == es[i].1 by {
            if i < init.len() {
                assert(init[i] == es[i]);
                assert(es[es.len() - 1].0 != es[i].0);
                assert forall|j: int| i < j < init.len() implies init[j].0 != init[i].0 by {
                    assert(init[j] == es[j]);
                }
            }
        }
    } else {
        assert(map_view(map_from(es)) =~= Map::<Seq<char>, ValueView>::empty());
    }
}

/// Law: a replacement puts its value at its path. When the segments of
/// `p` from `i` on reach a value of `v`, replacing there with `x` succeeds,
/// and reading the same segments in the result gives `x`.
pub proof fn lemma_replace_puts(v: ValueView, p: Seq<SegmentView>, i: int, x: ValueView)
    requires
        0 <= i < p.len(),
        value_from(v, p, i) is Ok,
    ensures
        edit_from(v, p, i, EditView::Replace(x)) is Ok,
        value_from(edit_from(v, p, i, EditView::Replace(x))->Ok_0, p, i) == Outcome::<ValueView>::Ok(x),
    decreases p.len() - i,
{
    let c = child_at(v, p[i])->Ok_0;
    if i + 1 >= p.len() {
        let w = with_child(v, p[i], x);
        assert(edit_leaf(v, p[i], EditView::Replace(x)) == Outcome::<ValueView>::Ok(w));
        assert(edit_from(v, p, i, EditView::Replace(x)) == Outcome::<ValueView>::Ok(w));
        lemma_child_with(v, p[i], x);
        assert(value_from(x, p, i + 1) == Outcome::<ValueView>::Ok(x));
        assert(value_from(w, p, i) == value_from(x, p, i + 1));
    } else {
        lemma_replace_puts(c, p, i + 1, x);
        let c2 = edit_from(c, p, i + 1, EditView::Replace(x))->Ok_0;
        let w = with_child(v, p[i], c2);
        assert(edit_from(v, p, i, EditView::Replace(x)) == Outcome::<ValueView>::Ok(w));
        lemma_child_with(v, p[i], c2);
        assert(value_from(w, p, i) == value_from(c2, p, i + 1));
    }
}

/// Whether a value can be added at `p` in `v` by following its segments
/// from `i` on: they reach, but for the last one, a map (for a key) or an
/// array at most as long as the index (for an index).
pub open spec fn addable(v: ValueView, p: Seq<SegmentView>, i: int) -> bool {
    &&& 0 <= i < p.len()
    &&& value_from(v, p.subrange(0, p.len() - 1), i) is Ok
    &&& match p.last() {
        SegmentView::Key(_) => value_from(v, p.subrange(0, p.len() - 1), i)->Ok_0 is Mapping,
        SegmentView::Index(n) => value_from(v, p.subrange(0, p.len() - 1), i)->Ok_0 matches ValueView::Array(a)
            && n <= a.len(),
    }
}

/// Law: an addition puts its value at its path. When the segments of `p`
/// from `i` on lead to a place where a value can be added, adding `x` there
/// succeeds, and reading the same segments in the result gives `x`.
#[verifier::spinoff_prover]
pub proof fn lemma_add_puts(v: ValueView, p: Seq<SegmentView>, i: int, x: ValueView)
    requires
        addable(v, p, i),
    ensures
        edit_from(v, p, i, EditView::Add(x)) is Ok,
        value_from(edit_from(v, p, i, EditView::Add(x))->Ok_0, p, i) == Outcome::<ValueView>::Ok(x),
    decreases p.len() - i,
{
    let q = p.subrange(0, p.len() - 1);
    if i + 1 >= p.len() {
        assert(value_from(v, q, i) == Outcome::<ValueView>::Ok(v));
        assert(p[i] == p.last());
        match p[i] {
            SegmentView::Key(k) => {
                let m = v->Mapping_0;
                lemma_edit_map(m, k, x);
                let m2 = map_with(m, k, x);
                assert(map_view(m2) == map_view(m).insert(k, x));
                assert(map_view(m2).contains_key(k));
                assert(map_view(m2)[k] == x);
                assert(has_entry(m2, k));
                assert(m2[entry_index(m2, k)].1 == x);
                assert(child_at(ValueView::Mapping(m2), p[i]) == Outcome::<ValueView>::Ok(x));
            },
            SegmentView::Index(n) => {
                let a = v->Array_0;
                lemma_edit_array(a, n, x);
            },
        }
        let w = edit_leaf(v, p[i], EditView::Add(x))->Ok_0;
        assert(value_from(x, p, i + 1) == Outcome::<ValueView>::Ok(x));
        assert(value_from(w, p, i) == value_from(x, p, i + 1));
    } else {
        assert(q[i] == p[i]);
        let c = child_at(v, p[i])->Ok_0;
        assert(value_from(v, q, i) == value_from(c, q, i + 1));
        assert(p.subrange(0, p.len() - 1) == q);
        lemma_add_puts(c, p, i + 1, x);
        let c2 = edit_from(c, p, i + 1, EditView::Add(x))->Ok_0;
        let w = with_child(v, p[i], c2);
        assert(edit_from(v, p, i, EditView::Add(x)) == Outcome::<ValueView>::Ok(w));
        lemma_child_with(v, p[i], c2);
        assert(value_from(w, p, i) == value_from(c2, p, i + 1));
    }
}

/// Law: add and copy actions put their value at their path. When a value
/// can be added at `p` in the document `v`, adding `x` gives a document that
/// holds `x` at `p`; and copying from a path `from` that reaches the value
/// `src` of the original document `o` gives a document that holds `src` at
/// `p`.
pub proof fn lemma_add_copy_step(o: ValueView, v: ValueView, p: Seq<SegmentView>, x: ValueView, from: Seq<SegmentView>)
    requires
        addable(v, p, 0),
    ensures
        step(Some(o), Some(v), ActionView::Add(p, x)) matches Outcome::Ok(Some(w)) && value_from(w, p, 0)
            == Outcome::<ValueView>::Ok(x),
        value_from(o, from, 0) matches Outcome::Ok(src) ==> (step(Some(o), Some(v), ActionView::Copy(p, from))
            matches Outcome::Ok(Some(w)) && value_from(w, p, 0) == Outcome::<ValueView>::Ok(src)),
{
    lemma_add_puts(v, p, 0, x);
    if value_from(o, from, 0) is Ok {
        lemma_add_puts(v, p, 0, value_from(o, from, 0)->Ok_0);
    }
}

/// Law: a replace action puts its value at its path. When a non-empty path
/// `p` reaches a value of the document `v`, the action replacing it with
/// `x` succeeds, and the resulting document holds `x` at `p`.
pub proof fn lemma_replace_step(orig: Option<ValueView>, v: ValueView, p: Seq<SegmentView>, x: ValueView)
    requires
        p.len() > 0,
        value_from(v, p, 0) is Ok,
    ensures
        step(orig, Some(v), ActionView::Replace(p, x)) matches Outcome::Ok(Some(w)) && value_from(w, p, 0)
            == Outcome::<ValueView>::Ok(x),
{
    lemma_replace_puts(v, p, 0, x);
}

/// Law: replacing the value of an existing key of a map sets that entry's
/// value and keeps the key, and leaves every other entry as it was.
pub proof fn lemma_replace_map_entry(m: Seq<(Seq<char>, ValueView)>, k: Seq<char>, x: ValueView)
    requires
        has_entry(m, k),
    ensures
        edit_leaf(ValueView::Mapping(m), SegmentView::Key(k), EditView::Replace(x)) matches Outcome::Ok(
            ValueView::Mapping(m2),
        ) && m2.len() == m.len() && m2[entry_index(m, k)] == (k, x) && m[entry_index(m, k)].0 == k
            && forall|j: int| 0 <= j < m.len() && j != entry_index(m, k) ==> #[trigger] m2[j] == m[j],
{
    lemma_entry_index(m, k);
}

/// A value set is found where it was set.
pub proof fn lemma_value_set(v: ValueView, p: Seq<SegmentView>, w: ValueView, i: int)
    requires
        0 <= i <= p.len(),
        value_from(v, p, i) is Ok,
    ensures
        value_from(set_from(v, p, i, w), p, i) == Outcome::<ValueView>::Ok(w),
    decreases p.len() - i,
{
    if i < p.len() {
        let c = child_at(v, p[i])->Ok_0;
        lemma_value_set(c, p, w, i + 1);
        lemma_child_with(v, p[i], set_from(c, p, i + 1, w));
    }
}

/// Setting the value that is there changes nothing.
pub proof fn lemma_set_same(v: ValueView, p: Seq<SegmentView>, i: int)
    requires
        0 <= i <= p.len(),
        value_from(v, p, i) is Ok,
    ensures
        set_from(v, p, i, value_from(v, p, i)->Ok_0) == v,
    decreases p.len() - i,
{
    if i < p.len() {
        let c = child_at(v, p[i])->Ok_0;
        lemma_set_same(c, p, i + 1);
        match p[i] {
            SegmentView::Key(k) => {
                let m = v->Mapping_0;
                lemma_entry_index(m, k);
                assert(m.update(entry_index(m, k), (k, c)) =~= m);
            },
            SegmentView::Index(j) => {
                assert(v->Array_0.update(j as int, c) =~= v->Array_0);
            },
        }
    }
}

/// Following segments after a prefix is following them alone.
pub proof fn lemma_value_shift(x: ValueView, a: Seq<SegmentView>, q: Seq<SegmentView>, j: int)
    requires
        0 <= j <= q.len(),
    ensures
        value_from(x, a + q, a.len() + j) == value_from(x, q, j),
    decreases q.len() - j,
{
    if j < q.len() {
        assert((a + q)[a.len() + j] == q[j]);
        match child_at(x, q[j]) {
            Ok(c) => lemma_value_shift(c, a, q, j + 1),
            Err(_) => {},
        }
    }
}

/// An index entry of `v` listed under `at`: its path is `at` followed by a
/// path in `v` to a subvalue with the entry's hash.
pub open spec fn entry_at(v: ValueView, at: Seq<SegmentView>, e: (Seq<u8>, Seq<SegmentView>)) -> bool {
    &&& at.len() <= e.1.len()
    &&& e.1.subrange(0, at.len() as int) == at
    &&& value_from(v, e.1.subrange(at.len() as int, e.1.len() as int), 0) is Ok
    &&& view_digest(value_from(v, e.1.subrange(at.len() as int, e.1.len() as int), 0)->Ok_0) == e.0
}

/// An entry of a child's index, under the child's segment, is an entry of
/// the parent's.
proof fn lemma_entry_lift(v: ValueView, at: Seq<SegmentView>, s: SegmentView, e: (Seq<u8>, Seq<SegmentView>))
    requires
        child_at(v, s) is Ok,
        entry_at(child_at(v, s)->Ok_0, at.push(s), e),
    ensures
        entry_at(v, at, e),
{
    let c = child_at(v, s)->Ok_0;
    let p = e.1;
    let r = p.subrange(at.len() as int + 1, p.len() as int);
    let q = p.subrange(at.len() as int, p.len() as int);
    assert(p.subrange(0, at.len() as int + 1) == at.push(s));
    assert(p.subrange(0, at.len() as int + 1)[at.len() as int] == p[at.len() as int]);
    assert(q =~= seq![s] + r);
    assert(p.subrange(0, at.len() as int) =~= at.push(s).subrange(0, at.len() as int));
    assert(at.push(s).subrange(0, at.len() as int) =~= at);
    lemma_value_shift(c, seq![s], r, 0);
    assert(q[0] == s);
}

/// Every entry of the index of `v` under `at` is an entry of `v` under
/// `at`.
pub proof fn lemma_index_valid(v: ValueView, at: Seq<SegmentView>)
    requires
        canonical(v),
    ensures
        forall|j: int| 0 <= j < index_of(v, at).len() ==> entry_at(v, at, #[trigger] index_of(v, at)[j]),
    decreases v, 1int, 0int,
{
    let top = (view_digest(v), at);
    assert(at.subrange(0, at.len() as int) =~= at);
    assert(at.subrange(at.len() as int, at.len() as int) =~= Seq::<SegmentView>::empty());
    assert(entry_at(v, at, top));
    match v {
        ValueView::Array(items) => {
            assert(items.subrange(0, items.len() as int) =~= items);
            lemma_items_valid(v, items.len(), at);
            let first = items_index(items, at);
            assert(index_of(v, at) == first + seq![top]);
            assert forall|j: int| 0 <= j < index_of(v, at).len() implies entry_at(v, at, #[trigger] index_of(v, at)[j]) by {
                if j < first.len() {
                    assert(index_of(v, at)[j] == first[j]);
                }
            }
        },
        ValueView::Mapping(es) => {
            assert(es.subrange(0, es.len() as int) =~= es);
            lemma_entries_valid(v, es.len(), at);
            let first = entries_index(es, at);
            assert(index_of(v, at) == first + seq![top]);
            assert forall|j: int| 0 <= j < index_of(v, at).len() implies entry_at(v, at, #[trigger] index_of(v, at)[j]) by {
                if j < first.len() {
                    assert(index_of(v, at)[j] == first[j]);
                }
            }
        },
        _ => {},
    }
}

proof fn lemma_items_valid(v: ValueView, n: nat, at: Seq<SegmentView>)
    requires
        v is Array,
        canonical(v),
        n <= v->Array_0.len(),
    ensures
        forall|j: int|
            0 <= j < items_index(v->Array_0.subrange(0, n as int), at).len() ==> entry_at(
                v,
                at,
                #[trigger] items_index(v->Array_0.subrange(0, n as int), at)[j],
            ),
    decreases v, 0int, n,
{
    if n > 0 {
        let items = v->Array_0;
        let t = items.subrange(0, n as int);
        assert(t.subrange(0, t.len() - 1) =~= items.subrange(0, n - 1));
        lemma_items_valid(v, (n - 1) as nat, at);
        let s = SegmentView::Index((n - 1) as nat);
        let c = items[n - 1];
        assert(t[t.len() - 1] == c);
        assert(canonical(c));
        assert(decreases_to!(v => v->Array_0));
        lemma_index_valid(c, at.push(s));
        let first = items_index(items.subrange(0, n - 1), at);
        let second = index_of(c, at.push(s));
        assert(items_index(t, at) == first + second);
        assert forall|j: int| 0 <= j < (first + second).len() implies entry_at(v, at, #[trigger] (first + second)[j]) by {
            if j >= first.len() {
                assert(second[j - first.len()] == (first + second)[j]);
                lemma_entry_lift(v, at, s, second[j - first.len()]);
            } else {
                assert(first[j] == (first + second)[j]);
            }
        }
    }
}

proof fn lemma_entries_valid(v: ValueView, n: nat, at: Seq<SegmentView>)
    requires
        v is Mapping,
        canonical(v),
        n <= v->Mapping_0.len(),
    ensures
        forall|j: int|
            0 <= j < entries_index(v->Mapping_0.subrange(0, n as int), at).len() ==> entry_at(
                v,
                at,
                #[trigger] entries_index(v->Mapping_0.subrange(0, n as int), at)[j],
            ),
    decreases v, 0int, n,
{
    if n > 0 {
        let es = v->Mapping_0;
        let t = es.subrange(0, n as int);
        assert(t.subrange(0, t.len() - 1) =~= es.subrange(0, n - 1));
        lemma_entries_valid(v, (n - 1) as nat, at);
        let k = es[n - 1].0;
        let c = es[n - 1].1;
        assert(t[t.len() - 1] == es[n - 1]);
        assert(canonical(c));
        let s = SegmentView::Key(k);
        lemma_entry_index(es, k);
        let fi = entry_index(es, k);
        assert(decreases_to!(v => v->Mapping_0));
        assert(decreases_to!(v->Mapping_0 => v->Mapping_0[n - 1]));
        lemma_index_valid(c, at.push(s));
        if fi != n - 1 {
            lemma_keys_unique(es, fi, n - 1);
        }
        assert(child_at(v, s) == Outcome::<ValueView>::Ok(c));
        let first = entries_index(es.subrange(0, n - 1), at);
        let second = index_of(c, at.push(s));
        assert(entries_index(t, at) == first + second);
        assert forall|j: int| 0 <= j < (first + second).len() implies entry_at(v, at, #[trigger] (first + second)[j]) by {
            if j >= first.len() {
                assert(second[j - first.len()] == (first + second)[j]);
                lemma_entry_lift(v, at, s, second[j - first.len()]);
            } else {
                assert(first[j] == (first + second)[j]);
            }
        }
    }
}

/// The index of an array's items holds the index of each item, under its
/// position.
proof fn lemma_items_index_holds(items: Seq<ValueView>, at: Seq<SegmentView>, k: int, e: (Seq<u8>, Seq<SegmentView>))
    requires
        0 <= k < items.len(),
        index_of(items[k], at.push(SegmentView::Index(k as nat))).contains(e),
    ensures
        items_index(items, at).contains(e),
    decreases items.len(),
{
    let n = items.len() as int;
    let first = items_index(items.subrange(0, n - 1), at);
    let last = index_of(items[n - 1], at.push(SegmentView::Index((n - 1) as nat)));
    assert(items_index(items, at) == first + last);
    if k == n - 1 {
        let j = choose|j: int| 0 <= j < last.len() && last[j] == e;
        assert((first + last)[first.len() + j] == e);
    } else {
        assert(items.subrange(0, n - 1)[k] == items[k]);
        lemma_items_index_holds(items.subrange(0, n - 1), at, k, e);
        let j = choose|j: int| 0 <= j < first.len() && first[j] == e;
        assert((first + last)[j] == e);
    }
}

/// The index of a map's entries holds the index of each entry's value,
/// under its key.
proof fn lemma_entries_index_holds(
    es: Seq<(Seq<char>, ValueView)>,
    at: Seq<SegmentView>,
    k: int,
    e: (Seq<u8>, Seq<SegmentView>),
)
    requires
        0 <= k < es.len(),
        index_of(es[k].1, at.push(SegmentView::Key(es[k].0))).contains(e),
    ensures
        entries_index(es, at).contains(e),
    decreases es.len(),
{
    let n = es.len() as int;
    let first = entries_index(es.subrange(0, n - 1), at);
    let last = index_of(es[n - 1].1, at.push(SegmentView::Key(es[n - 1].0)));
    assert(entries_index(es, at) == first + last);
    if k == n - 1 {
        let j = choose|j: int| 0 <= j < last.len() && last[j] == e;
        assert((first + last)[first.len() + j] == e);
    } else {
        assert(es.subrange(0, n - 1)[k] == es[k]);
        lemma_entries_index_holds(es.subrange(0, n - 1), at, k, e);
        let j = choose|j: int| 0 <= j < first.len() && first[j] == e;
        assert((first + last)[j] == e);
    }
}

/// The index of `v` under `at` lists, for the segments of `p` from `i` on
/// that reach a subvalue, that subvalue's hash under `at` followed by
/// those segments.
#[verifier::spinoff_prover]
proof fn lemma_index_complete(v: ValueView, at: Seq<SegmentView>, p: Seq<SegmentView>, i: int)
    requires
        0 <= i <= p.len(),
        value_from(v, p, i) is Ok,
    ensures
        index_of(v, at).contains(
            (view_digest(value_from(v, p, i)->Ok_0), at + p.subrange(i, p.len() as int)),
        ),
    decreases p.len() - i,
{
    let idx = index_of(v, at);
    if i == p.len() {
        assert(at + p.subrange(i, p.len() as int) =~= at);
        assert(idx[idx.len() - 1] == (view_digest(v), at));
    } else {
        let seg = p[i];
        let c = child_at(v, seg)->Ok_0;
        lemma_index_complete(c, at.push(seg), p, i + 1);
        let e = (view_digest(value_from(v, p, i)->Ok_0), at + p.subrange(i, p.len() as int));
        assert(at.push(seg) + p.subrange(i + 1, p.len() as int) =~= at + p.subrange(i, p.len() as int));
        match seg {
            SegmentView::Index(k) => {
                let items = v->Array_0;
                lemma_items_index_holds(items, at, k as int, e);
                let first = items_index(items, at);
                let j = choose|j: int| 0 <= j < first.len() && first[j] == e;
                assert(idx == first + seq![(view_digest(v), at)]);
                assert(idx[j] == e);
            },
            SegmentView::Key(k) => {
                let es = v->Mapping_0;
                lemma_entry_index(es, k);
                let fi = entry_index(es, k);
                lemma_entries_index_holds(es, at, fi, e);
                let first = entries_index(es, at);
                let j = choose|j: int| 0 <= j < first.len() && first[j] == e;
                assert(idx == first + seq![(view_digest(v), at)]);
                assert(idx[j] == e);
            },
        }
    }
}

/// Law: a document's index lists its subvalues. For each path that reaches
/// a subvalue of `v`, the index of `v` holds that path under the
/// subvalue's content hash; and each path that the index holds reaches a
/// subvalue with the hash it is listed under.
pub proof fn lemma_index_lists_subvalues(v: ValueView)
    requires
        canonical(v),
    ensures
        forall|p: Seq<SegmentView>|
            #[trigger] value_from(v, p, 0) is Ok ==> index_of(v, Seq::empty()).contains(
                (view_digest(value_from(v, p, 0)->Ok_0), p),
            ),
        forall|j: int|
            0 <= j < index_of(v, Seq::empty()).len() ==> value_from(
                v,
                #[trigger] index_of(v, Seq::empty())[j].1,
                0,
            ) is Ok && view_digest(value_from(v, index_of(v, Seq::empty())[j].1, 0)->Ok_0)
                == index_of(v, Seq::empty())[j].0,
{
    let e = Seq::<SegmentView>::empty();
    assert forall|p: Seq<SegmentView>| #[trigger] value_from(v, p, 0) is Ok implies index_of(v, e).contains(
        (view_digest(value_from(v, p, 0)->Ok_0), p),
    ) by {
        lemma_index_complete(v, e, p, 0);
        assert(e + p.subrange(0, p.len() as int) =~= p);
    }
    lemma_index_valid(v, e);
    assert forall|j: int| 0 <= j < index_of(v, e).len() implies value_from(
        v,
        #[trigger] index_of(v, e)[j].1,
        0,
    ) is Ok && view_digest(value_from(v, index_of(v, e)[j].1, 0)->Ok_0) == index_of(v, e)[j].0 by {
        let en = index_of(v, e)[j];
        assert(entry_at(v, e, en));
        assert(en.1.subrange(0, 0) =~= e);
        assert(en.1.subrange(0, en.1.len() as int) =~= en.1);
    }
}

/// Keys with the same bytes are the same key.
pub proof fn lemma_key_bytes_injective(a: Seq<char>, b: Seq<char>)
    requires
        key_bytes(a) == key_bytes(b),
    ensures
        a == b,
{
    vstd::utf8::encode_utf8_decode_utf8(a);
    vstd::utf8::encode_utf8_decode_utf8(b);
}

/// The entries as a map from key to value; where a key occurs more than
/// once, its first entry counts.
pub open spec fn map_view(m: Seq<(Seq<char>, ValueView)>) -> Map<Seq<char>, ValueView> {
    Map::new(|k: Seq<char>| has_entry(m, k), |k: Seq<char>| m[entry_index(m, k)].1)
}

proof fn lemma_key_pos_shift(e: (Seq<char>, ValueView), t: Seq<(Seq<char>, ValueView)>, k: Seq<char>, i: nat)
    requires
        i <= t.len(),
    ensures
        crate::consumer::applier::key_pos(seq![e] + t, k, i + 1) == crate::consumer::applier::key_pos(t, k, i) + 1,
    decreases t.len() - i,
{
    let m = seq![e] + t;
    if i < t.len() {
        assert(m[i as int + 1] == t[i as int]);
        if t[i as int].0 != k {
            lemma_key_pos_shift(e, t, k, i + 1);
        }
    }
}

/// An entry in front: its key maps to its value, the rest as before.
pub proof fn lemma_map_view_cons(e: (Seq<char>, ValueView), t: Seq<(Seq<char>, ValueView)>)
    ensures
        map_view(seq![e] + t) == map_view(t).insert(e.0, e.1),
{
    let m = seq![e] + t;
    assert forall|k: Seq<char>| #[trigger] has_entry(m, k) == (k == e.0 || has_entry(t, k)) && (has_entry(m, k) ==> m[entry_index(m, k)].1 == if k == e.0 {
        e.1
    } else {
        t[entry_index(t, k)].1
    }) by {
        assert(m[0] == e);
        if k != e.0 {
            lemma_key_pos_shift(e, t, k, 0);
            lemma_entry_index(t, k);
            if has_entry(t, k) {
                assert(m[entry_index(t, k) + 1] == t[entry_index(t, k)]);
            }
        }
    }
    assert(map_view(m) =~= map_view(t).insert(e.0, e.1));
}

/// Setting a key in the entries sets it in the map.
pub proof fn lemma_map_view_with(m: Seq<(Seq<char>, ValueView)>, k: Seq<char>, v: ValueView)
    ensures
        map_view(map_with(m, k, v)) == map_view(m).insert(k, v),
    decreases m.len(),
{
    if m.len() == 0 {
        lemma_map_view_cons((k, v), m);
        assert(seq![(k, v)] + m =~= seq![(k, v)]);
        assert(map_view(m) =~= Map::<Seq<char>, ValueView>::empty());
    } else {
        let t = m.drop_first();
        assert(m =~= seq![m[0]] + t);
        lemma_map_view_cons(m[0], t);
        let c = lex_order(key_bytes(k), key_bytes(m[0].0));
        if c == 0 {
            lemma_lex_order_eq(key_bytes(k), key_bytes(m[0].0));
            lemma_key_bytes_injective(k, m[0].0);
            lemma_map_view_cons((k, v), t);
            assert(map_view(m).insert(k, v) =~= map_view(t).insert(k, v));
        } else if c < 0 {
            lemma_map_view_cons((k, v), m);
        } else {
            lemma_map_view_with(t, k, v);
            lemma_map_view_cons(m[0], map_with(t, k, v));
            if k == m[0].0 {
                lemma_lex_order_eq(key_bytes(k), key_bytes(m[0].0));
            }
            assert(map_view(t).insert(k, v).insert(m[0].0, m[0].1) =~= map_view(t).insert(m[0].0, m[0].1).insert(k, v));
        }
    }
}

/// In ascending order, each entry is the first with its key.
pub proof fn lemma_ascending_index(m: Seq<(Seq<char>, ValueView)>, i: int)
    requires
        keys_ascending(m),
        0 <= i < m.len(),
    ensures
        has_entry(m, m[i].0),
        entry_index(m, m[i].0) == i,
{
    lemma_entry_index(m, m[i].0);
    let e = entry_index(m, m[i].0);
    if e != i {
        lemma_keys_unique(m, e, i);
    }
}

/// Removing the entry with a key removes the key from the map, when keys
/// are ascending.
pub proof fn lemma_map_view_remove(m: Seq<(Seq<char>, ValueView)>, k: Seq<char>)
    requires
        keys_ascending(m),
        has_entry(m, k),
    ensures
        map_view(m.remove(entry_index(m, k))) == map_view(m).remove(k),
    decreases m.len(),
{
    let i = entry_index(m, k);
    lemma_entry_index(m, k);
    let t = m.drop_first();
    assert(m =~= seq![m[0]] + t);
    lemma_map_view_cons(m[0], t);
    assert(keys_ascending(t)) by {
        assert forall|a: int, b: int| 0 <= a < b < t.len() implies lex_order(
            key_bytes(#[trigger] t[a].0),
            key_bytes(#[trigger] t[b].0),
        ) < 0 by {
            assert(t[a] == m[a + 1] && t[b] == m[b + 1]);
        }
    }
    if i == 0 {
        assert(m.remove(0) =~= t);
        assert(!has_entry(t, k)) by {
            if has_entry(t, k) {
                lemma_entry_index(t, k);
                let j = entry_index(t, k);
                assert(m[j + 1].0 == k);
                lemma_keys_unique(m, 0, j + 1);
            }
        }
        assert(map_view(t) =~= map_view(t).insert(k, m[0].1).remove(k));
    } else {
        assert(m[0].0 != k);
        lemma_key_pos_shift(m[0], t, k, 0);
        assert(entry_index(t, k) == i - 1);
        lemma_map_view_remove(t, k);
        assert(m.remove(i) =~= seq![m[0]] + t.remove(i - 1));
        lemma_map_view_cons(m[0], t.remove(i - 1));
        assert(map_view(t).remove(k).insert(m[0].0, m[0].1) =~= map_view(t).insert(m[0].0, m[0].1).remove(k));
    }
}

/// Entries in ascending key order are determined by their map.
pub proof fn lemma_ascending_unique(a: Seq<(Seq<char>, ValueView)>, b: Seq<(Seq<char>, ValueView)>)
    requires
        keys_ascending(a),
        keys_ascending(b),
        map_view(a) == map_view(b),
    ensures
        a == b,
    decreases a.len() + b.len(),
{
    if a.len() == 0 && b.len() == 0 {
        assert(a =~= b);
    } else if a.len() == 0 {
        lemma_ascending_index(b, 0);
        assert(map_view(b).contains_key(b[0].0));
        assert(!has_entry(a, b[0].0));
    } else if b.len() == 0 {
        lemma_ascending_index(a, 0);
        assert(map_view(a).contains_key(a[0].0));
        assert(!has_entry(b, a[0].0));
    } else {
        lemma_ascending_index(a, 0);
        lemma_ascending_index(b, 0);
        assert(map_view(a).contains_key(a[0].0));
        assert(map_view(b).contains_key(b[0].0));
        lemma_entry_index(b, a[0].0);
        lemma_entry_index(a, b[0].0);
        let j = entry_index(b, a[0].0);
        let i = entry_index(a, b[0].0);
        if a[0].0 != b[0].0 {
            assert(j > 0 && i > 0);
            assert(lex_order(key_bytes(b[0].0), key_bytes(b[j].0)) < 0);
            assert(lex_order(key_bytes(a[0].0), key_bytes(a[i].0)) < 0);
            lemma_lex_order_antisym(key_bytes(a[0].0), key_bytes(b[0].0));
        }
        assert(a[0].0 == b[0].0);
        assert(map_view(a)[a[0].0] == a[0].1);
        assert(map_view(b)[b[0].0] == b[0].1);
        assert(a[0] == b[0]);
        let ta = a.drop_first();
        let tb = b.drop_first();
        assert(a.remove(0) =~= ta);
        assert(b.remove(0) =~= tb);
        lemma_map_view_remove(a, a[0].0);
        lemma_map_view_remove(b, b[0].0);
        assert(keys_ascending(ta)) by {
            assert forall|x: int, y: int| 0 <= x < y < ta.len() implies lex_order(
                key_bytes(#[trigger] ta[x].0),
                key_bytes(#[trigger] ta[y].0),
            ) < 0 by {
                assert(ta[x] == a[x + 1] && ta[y] == a[y + 1]);
            }
        }
        assert(keys_ascending(tb)) by {
            assert forall|x: int, y: int| 0 <= x < y < tb.len() implies lex_order(
                key_bytes(#[trigger] tb[x].0),
                key_bytes(#[trigger] tb[y].0),
            ) < 0 by {
                assert(tb[x] == b[x + 1] && tb[y] == b[y + 1]);
            }
        }
        lemma_ascending_unique(ta, tb);
        assert(a =~= seq![a[0]] + ta);
        assert(b =~= seq![b[0]] + tb);
    }
}

/// Actions run one part after the other.
pub proof fn lemma_run_concat(
    orig: Option<ValueView>,
    c: Option<ValueView>,
    a: Seq<ActionView>,
    b: Seq<ActionView>,
)
    ensures
        run_from(orig, c, a + b) == match run_from(orig, c, a) {
            Ok(c2) => run_from(orig, c2, b),
            Err(k) => Outcome::<Option<ValueView>>::Err(k),
        },
    decreases b.len(),
{
    if b.len() == 0 {
        assert(a + b =~= a);
    } else {
        assert((a + b).drop_last() =~= a + b.drop_last());
        assert((a + b).last() == b.last());
        lemma_run_concat(orig, c, a, b.drop_last());
    }
}

/// One action runs as one step.
pub proof fn lemma_run_one(orig: Option<ValueView>, c: Option<ValueView>, a: ActionView)
    ensures
        run_from(orig, c, seq![a]) == step(orig, c, a),
{
    assert(seq![a].drop_last() =~= Seq::<ActionView>::empty());
    assert(seq![a].last() == a);
    assert(run_from(orig, c, Seq::<ActionView>::empty()) == Outcome::<Option<ValueView>>::Ok(c));
}

/// The path that the index gives for a hash leads to a subvalue with it.
pub proof fn lemma_lookup_valid(o: ValueView, h: Seq<u8>)
    requires
        canonical(o),
        index_lookup(index_of(o, Seq::empty()), h) is Some,
    ensures
        value_from(o, index_lookup(index_of(o, Seq::empty()), h)->Some_0, 0) is Ok,
        view_digest(value_from(o, index_lookup(index_of(o, Seq::empty()), h)->Some_0, 0)->Ok_0)
            == h,
{
    let idx = index_of(o, Seq::empty());
    lemma_index_valid(o, Seq::empty());
    let j = lemma_lookup_found(idx, h);
    let f = idx[j].1;
    assert(entry_at(o, Seq::empty(), idx[j]));
    assert(f.subrange(0, f.len() as int) =~= f);
}

proof fn lemma_lookup_found(idx: Seq<(Seq<u8>, Seq<SegmentView>)>, h: Seq<u8>) -> (j: int)
    requires
        index_lookup(idx, h) is Some,
    ensures
        0 <= j < idx.len(),
        idx[j].0 == h,
        idx[j].1 == index_lookup(idx, h)->Some_0,
    decreases idx.len(),
{
    if idx.last().0 == h {
        idx.len() - 1
    } else {
        let j = lemma_lookup_found(idx.drop_last(), h);
        assert(idx.drop_last()[j] == idx[j]);
        j
    }
}

/// Subvalues of canonical values are canonical.
pub proof fn lemma_canonical_sub(v: ValueView, p: Seq<SegmentView>, i: int)
    requires
        canonical(v),
        0 <= i <= p.len(),
        value_from(v, p, i) is Ok,
    ensures
        canonical(value_from(v, p, i)->Ok_0),
    decreases p.len() - i,
{
    if i < p.len() {
        let c = child_at(v, p[i])->Ok_0;
        match p[i] {
            SegmentView::Key(k) => {
                lemma_entry_index(v->Mapping_0, k);
                assert(canonical(v->Mapping_0[entry_index(v->Mapping_0, k)].1));
            },
            SegmentView::Index(j) => {
                assert(canonical(v->Array_0[j as int]));
            },
        }
        lemma_canonical_sub(c, p, i + 1);
    }
}

/// Setting twice at the same place keeps the second value.
pub proof fn lemma_set_set(v: ValueView, p: Seq<SegmentView>, w1: ValueView, w2: ValueView, i: int)
    requires
        0 <= i <= p.len(),
        value_from(v, p, i) is Ok,
    ensures
        set_from(set_from(v, p, i, w1), p, i, w2) == set_from(v, p, i, w2),
    decreases p.len() - i,
{
    if i < p.len() {
        let c = child_at(v, p[i])->Ok_0;
        lemma_set_set(c, p, w1, w2, i + 1);
        let c1 = set_from(c, p, i + 1, w1);
        lemma_child_with(v, p[i], c1);
        match p[i] {
            SegmentView::Key(k) => {
                let m = v->Mapping_0;
                lemma_entry_index(m, k);
                let e = entry_index(m, k);
                let m1 = m.update(e, (k, c1));
                lemma_entry_index(m1, k);
                assert forall|j: int| 0 <= j < e implies #[trigger] m1[j].0 != k by {
                    assert(m1[j] == m[j]);
                }
                assert(m1[e].0 == k);
                assert(entry_index(m1, k) == e);
                assert(m1.update(e, (k, set_from(c1, p, i + 1, w2))) =~= m.update(e, (k, set_from(c1, p, i + 1, w2))));
            },
            SegmentView::Index(j) => {
                assert(v->Array_0.update(j as int, c1).update(j as int, set_from(c1, p, i + 1, w2)) =~= v->Array_0.update(j as int, set_from(c1, p, i + 1, w2)));
            },
        }
    }
}

/// No subvalue of the old document has the content hash of a subvalue of
/// the new one unless the two are equal.
pub open spec fn no_collision(o: ValueView, n: ValueView) -> bool {
    forall|p: Seq<SegmentView>, q: Seq<SegmentView>|
        #[trigger] value_from(o, p, 0) is Ok && #[trigger] value_from(n, q, 0) is Ok && view_digest(
            value_from(o, p, 0)->Ok_0,
        ) == view_digest(value_from(n, q, 0)->Ok_0) ==> value_from(o, p, 0) == value_from(n, q, 0)
}

/// Whether a value can be added at `at`: its parent exists and is a map
/// without the key, or an array whose length is the index.
pub open spec fn insertable(cur: ValueView, at: Seq<SegmentView>) -> bool {
    &&& at.len() > 0
    &&& value_from(cur, at.drop_last(), 0) is Ok
    &&& match at.last() {
        SegmentView::Key(k) => value_from(cur, at.drop_last(), 0)->Ok_0 matches ValueView::Mapping(
            m,
        ) && !has_entry(m, k),
        SegmentView::Index(i) => value_from(cur, at.drop_last(), 0)->Ok_0 matches ValueView::Array(
            items,
        ) && i == items.len(),
    }
}

/// The parent of `at`, when it is a map, has its keys ascending.
pub open spec fn parent_sorted(cur: ValueView, at: Seq<SegmentView>) -> bool {
    at.len() > 0 ==> (value_from(cur, at.drop_last(), 0) is Ok && (value_from(
        cur,
        at.drop_last(),
        0,
    )->Ok_0 matches ValueView::Mapping(m) ==> keys_ascending(m)))
}

/// An existing item of an array is diffed only against a container of the
/// same kind.
pub open spec fn item_ok(at: Seq<SegmentView>, ov: Option<ValueView>, nv: ValueView) -> bool {
    (at.len() > 0 && at.last() is Index && ov is Some) ==> (kind_of(ov->Some_0) == kind_of(nv) && (
    nv is Mapping || nv is Array))
}

/// Where a diff at `at` leaves `cur`: the new value set there, or added
/// where there was none.
pub open spec fn diff_target(cur: ValueView, at: Seq<SegmentView>, ov: Option<ValueView>, nv: ValueView) -> ValueView {
    match ov {
        Some(_) => set_from(cur, at, 0, nv),
        None => set_from(
            cur,
            at.drop_last(),
            0,
            edit_leaf(value_from(cur, at.drop_last(), 0)->Ok_0, at.last(), EditView::Add(nv))->Ok_0,
        ),
    }
}

/// What a diff at `at` needs of the documents and of the current value.
pub open spec fn diff_pre(
    o: ValueView,
    n: ValueView,
    at: Seq<SegmentView>,
    ov: Option<ValueView>,
    nv: ValueView,
    cur: ValueView,
) -> bool {
    &&& canonical(o)
    &&& canonical(n)
    &&& no_collision(o, n)
    &&& value_from(n, at, 0) == Outcome::<ValueView>::Ok(nv)
    &&& item_ok(at, ov, nv)
    &&& match ov {
        Some(x) => value_from(o, at, 0) == Outcome::<ValueView>::Ok(x) && value_from(cur, at, 0)
            == Outcome::<ValueView>::Ok(x) && parent_sorted(cur, at),
        None => insertable(cur, at),
    }
}

/// One action that sets the value at `at` to `nv` leaves the diff's target.
proof fn lemma_leaf_run(
    o: ValueView,
    n: ValueView,
    at: Seq<SegmentView>,
    ov: Option<ValueView>,
    nv: ValueView,
    acts: Seq<ActionView>,
    cur: ValueView,
)
    requires
        diff_pre(o, n, at, ov, nv, cur),
        leaf_ok(index_of(o, Seq::empty()), at, nv, acts),
        ov is Some && at.len() > 0 ==> at.last() is Key,
    ensures
        run_from(Some(o), Some(cur), acts) == Outcome::<Option<ValueView>>::Ok(
            Some(diff_target(cur, at, ov, nv)),
        ),
{
    let a = acts[0];
    assert(acts =~= seq![a]);
    lemma_run_one(Some(o), Some(cur), a);
    if a is Copy {
        let f = a->Copy_1;
        lemma_lookup_valid(o, view_digest(nv));
        assert(value_from(o, f, 0) is Ok && value_from(n, at, 0) is Ok);
    }
    if at.len() > 0 {
        let p = at.drop_last();
        let s = at.last();
        assert(at =~= p.push(s));
        let pv = value_from(cur, p, 0);
        match ov {
            Some(x) => {
                lemma_value_push(cur, p, s, 0);
                assert(pv is Ok);
            },
            None => {},
        }
        lemma_edit_push(cur, p, s, EditView::Add(nv), 0);
        match ov {
            Some(x) => {
                let pm = pv->Ok_0->Mapping_0;
                let k = s->Key_0;
                lemma_entry_index(pm, k);
                let e = entry_index(pm, k);
                lemma_map_with_existing(pm, e, nv);
                lemma_set_push(cur, p, s, nv, 0);
            },
            None => {},
        }
    }
}

/// The old map with the first `j` new entries set.
pub open spec fn mfold(om: Seq<(Seq<char>, ValueView)>, nm: Seq<(Seq<char>, ValueView)>, j: int) -> Seq<
    (Seq<char>, ValueView),
>
    decreases j,
{
    if j <= 0 {
        om
    } else {
        map_with(mfold(om, nm, j - 1), nm[j - 1].0, nm[j - 1].1)
    }
}

/// The map of the old entries with the first `j` new entries set.
pub open spec fn mview(om: Seq<(Seq<char>, ValueView)>, nm: Seq<(Seq<char>, ValueView)>, j: int) -> Map<
    Seq<char>,
    ValueView,
>
    decreases j,
{
    if j <= 0 {
        map_view(om)
    } else {
        mview(om, nm, j - 1).insert(nm[j - 1].0, nm[j - 1].1)
    }
}

/// Setting entries keeps the keys ascending, and the map follows.
proof fn lemma_mfold(om: Seq<(Seq<char>, ValueView)>, nm: Seq<(Seq<char>, ValueView)>, j: int)
    requires
        keys_ascending(om),
        keys_ascending(nm),
        0 <= j <= nm.len(),
    ensures
        keys_ascending(mfold(om, nm, j)),
        map_view(mfold(om, nm, j)) == mview(om, nm, j),
        forall|k: Seq<char>|
            !#[trigger] among(nm, j, k) ==> (mview(om, nm, j).contains_key(k) == map_view(
                om,
            ).contains_key(k) && (map_view(om).contains_key(k) ==> mview(om, nm, j)[k] == map_view(
                om,
            )[k])),
        forall|i: int|
            0 <= i < j ==> #[trigger] mview(om, nm, j).contains_key(nm[i].0) && mview(om, nm, j)[nm[i].0]
                == nm[i].1,
    decreases j,
{
    if j > 0 {
        lemma_mfold(om, nm, j - 1);
        let prev = mfold(om, nm, j - 1);
        crate::value::lemma_map_with(prev, nm[j - 1].0, nm[j - 1].1);
        lemma_map_view_with(prev, nm[j - 1].0, nm[j - 1].1);
        assert forall|i: int| 0 <= i < j implies #[trigger] mview(om, nm, j).contains_key(nm[i].0)
            && mview(om, nm, j)[nm[i].0] == nm[i].1 by {
            if i < j - 1 {
                if nm[i].0 == nm[j - 1].0 {
                    lemma_keys_unique(nm, i, j - 1);
                }
            }
        }
        assert forall|k: Seq<char>| !#[trigger] among(nm, j, k) implies (mview(om, nm, j).contains_key(k)
            == map_view(om).contains_key(k) && (map_view(om).contains_key(k) ==> mview(om, nm, j)[k]
            == map_view(om)[k])) by {
            if among(nm, j - 1, k) {
                let i = choose|i: int| 0 <= i < j - 1 && nm[i].0 == k;
                assert(0 <= i < j && nm[i].0 == k);
            }
            assert(nm[j - 1].0 != k);
        }
    }
}

/// Whether one of the first `j` entries has the key `k`.
pub open spec fn among(nm: Seq<(Seq<char>, ValueView)>, j: int, k: Seq<char>) -> bool {
    exists|i: int| 0 <= i < j && nm[i].0 == k
}

/// The map after setting the first `j` new entries and deleting the first
/// `d` old keys that the new map lacks.
pub open spec fn dfold(
    mm: Seq<(Seq<char>, ValueView)>,
    om: Seq<(Seq<char>, ValueView)>,
    nm: Seq<(Seq<char>, ValueView)>,
    d: int,
) -> Seq<(Seq<char>, ValueView)>
    decreases d,
{
    if d <= 0 {
        mm
    } else {
        let prev = dfold(mm, om, nm, d - 1);
        let k = om[d - 1].0;
        if has_entry(nm, k) {
            prev
        } else {
            prev.remove(entry_index(prev, k))
        }
    }
}

/// Deleting the old keys that the new map lacks keeps the keys ascending,
/// and removes exactly those keys.
proof fn lemma_dfold(
    om: Seq<(Seq<char>, ValueView)>,
    nm: Seq<(Seq<char>, ValueView)>,
    d: int,
)
    requires
        keys_ascending(om),
        keys_ascending(nm),
        0 <= d <= om.len(),
    ensures
        keys_ascending(dfold(mfold(om, nm, nm.len() as int), om, nm, d)),
        forall|k: Seq<char>|
            #![trigger map_view(dfold(mfold(om, nm, nm.len() as int), om, nm, d)).contains_key(k)]
            map_view(dfold(mfold(om, nm, nm.len() as int), om, nm, d)).contains_key(k) == (mview(
                om,
                nm,
                nm.len() as int,
            ).contains_key(k) && !(exists|i: int|
                0 <= i < d && #[trigger] om[i].0 == k && !has_entry(nm, k))),
        forall|k: Seq<char>|
            #![trigger map_view(dfold(mfold(om, nm, nm.len() as int), om, nm, d))[k]]
            map_view(dfold(mfold(om, nm, nm.len() as int), om, nm, d)).contains_key(k) ==> map_view(
                dfold(mfold(om, nm, nm.len() as int), om, nm, d),
            )[k] == mview(om, nm, nm.len() as int)[k],
    decreases d,
{
    let mm = mfold(om, nm, nm.len() as int);
    lemma_mfold(om, nm, nm.len() as int);
    if d > 0 {
        lemma_dfold(om, nm, d - 1);
        let prev = dfold(mm, om, nm, d - 1);
        let k = om[d - 1].0;
        if !has_entry(nm, k) {
            // The key is there: an old key, not among the new keys, not
            // deleted before since old keys are distinct.
            lemma_ascending_index(om, d - 1);
            assert(map_view(om).contains_key(k));
            assert(!among(nm, nm.len() as int, k)) by {
                if among(nm, nm.len() as int, k) {
                    let i = choose|i: int| 0 <= i < nm.len() && nm[i].0 == k;
                    lemma_ascending_index(nm, i);
                }
            }
            assert(mview(om, nm, nm.len() as int).contains_key(k));
            assert forall|i: int| 0 <= i < d - 1 implies #[trigger] om[i].0 != k by {
                if om[i].0 == k {
                    lemma_keys_unique(om, i, d - 1);
                }
            }
            assert(map_view(prev).contains_key(k));
            lemma_map_view_remove(prev, k);
            lemma_remove_keeps_order(prev, entry_index(prev, k));
        }
    }
}

/// An old key that the new map lacks and that was not deleted yet is there.
proof fn lemma_dfold_has(om: Seq<(Seq<char>, ValueView)>, nm: Seq<(Seq<char>, ValueView)>, d: int)
    requires
        keys_ascending(om),
        keys_ascending(nm),
        0 <= d < om.len(),
        !has_entry(nm, om[d].0),
    ensures
        has_entry(dfold(mfold(om, nm, nm.len() as int), om, nm, d), om[d].0),
{
    let k = om[d].0;
    lemma_dfold(om, nm, d);
    lemma_mfold(om, nm, nm.len() as int);
    lemma_ascending_index(om, d);
    assert(map_view(om).contains_key(k));
    assert(!among(nm, nm.len() as int, k)) by {
        if among(nm, nm.len() as int, k) {
            let i = choose|i: int| 0 <= i < nm.len() && nm[i].0 == k;
            lemma_ascending_index(nm, i);
        }
    }
    assert(!(exists|i: int| 0 <= i < d && #[trigger] om[i].0 == k && !has_entry(nm, k))) by {
        if exists|i: int| 0 <= i < d && #[trigger] om[i].0 == k && !has_entry(nm, k) {
            let i = choose|i: int| 0 <= i < d && #[trigger] om[i].0 == k && !has_entry(nm, k);
            lemma_keys_unique(om, i, d);
        }
    }
    assert(map_view(dfold(mfold(om, nm, nm.len() as int), om, nm, d)).contains_key(k));
}

/// Setting the new entries and deleting the old keys that the new map
/// lacks gives the new map.
proof fn lemma_map_final(om: Seq<(Seq<char>, ValueView)>, nm: Seq<(Seq<char>, ValueView)>)
    requires
        keys_ascending(om),
        keys_ascending(nm),
    ensures
        dfold(mfold(om, nm, nm.len() as int), om, nm, om.len() as int) == nm,
{
    let f = dfold(mfold(om, nm, nm.len() as int), om, nm, om.len() as int);
    lemma_dfold(om, nm, om.len() as int);
    lemma_mfold(om, nm, nm.len() as int);
    assert forall|k: Seq<char>| #[trigger] map_view(f).contains_key(k) == map_view(nm).contains_key(k)
        && (map_view(f).contains_key(k) ==> map_view(f)[k] == map_view(nm)[k]) by {
        lemma_entry_index(nm, k);
        if has_entry(nm, k) {
            let e = entry_index(nm, k);
            assert(mview(om, nm, nm.len() as int).contains_key(nm[e].0));
        } else {
            assert(!among(nm, nm.len() as int, k)) by {
                if among(nm, nm.len() as int, k) {
                    let i = choose|i: int| 0 <= i < nm.len() && nm[i].0 == k;
                    assert(nm[i].0 == k);
                }
            }
            lemma_entry_index(om, k);
            if has_entry(om, k) {
                let i = entry_index(om, k);
                assert(0 <= i < om.len() && om[i].0 == k && !has_entry(nm, k));
            }
        }
    }
    assert(map_view(f) =~= map_view(nm));
    lemma_ascending_unique(f, nm);
}

/// Runs the parts of the first `j` new entries of a map diff.
proof fn lemma_map_run(
    o: ValueView,
    n: ValueView,
    at: Seq<SegmentView>,
    om: Seq<(Seq<char>, ValueView)>,
    nm: Seq<(Seq<char>, ValueView)>,
    parts: Seq<Seq<ActionView>>,
    cur: ValueView,
    j: int,
)
    requires
        canonical(o),
        canonical(n),
        no_collision(o, n),
        value_from(o, at, 0) == Outcome::<ValueView>::Ok(ValueView::Mapping(om)),
        value_from(cur, at, 0) == Outcome::<ValueView>::Ok(ValueView::Mapping(om)),
        value_from(n, at, 0) == Outcome::<ValueView>::Ok(ValueView::Mapping(nm)),
        keys_ascending(om),
        keys_ascending(nm),
        parts.len() == nm.len(),
        forall|i: int|
            0 <= i < nm.len() ==> if unchanged(old_entry(om, nm[i].0), nm[i].1) {
                (#[trigger] parts[i]).len() == 0
            } else {
                diff_ok(
                    index_of(o, Seq::empty()),
                    at.push(SegmentView::Key(nm[i].0)),
                    old_entry(om, nm[i].0),
                    nm[i].1,
                    parts[i],
                )
            },
        0 <= j <= nm.len(),
    ensures
        run_from(Some(o), Some(cur), concat(parts.take(j))) == Outcome::<Option<ValueView>>::Ok(
            Some(set_from(cur, at, 0, ValueView::Mapping(mfold(om, nm, j)))),
        ),
    decreases ValueView::Mapping(nm), 1int, j,
{
    if j == 0 {
        assert(parts.take(0) =~= Seq::<Seq<ActionView>>::empty());
        lemma_set_same(cur, at, 0);
    } else {
        let i = j - 1;
        lemma_map_run(o, n, at, om, nm, parts, cur, i);
        let mi = mfold(om, nm, i);
        let cur_i = set_from(cur, at, 0, ValueView::Mapping(mi));
        assert(parts.take(j).drop_last() =~= parts.take(i));
        assert(parts.take(j).last() == parts[i]);
        lemma_run_concat(Some(o), Some(cur), concat(parts.take(i)), parts[i]);
        lemma_mfold(om, nm, i);
        let k = nm[i].0;
        let nvk = nm[i].1;
        assert(!among(nm, i, k)) by {
            if among(nm, i, k) {
                let i2 = choose|i2: int| 0 <= i2 < i && nm[i2].0 == k;
                lemma_keys_unique(nm, i2, i);
            }
        }
        lemma_value_set(cur, at, ValueView::Mapping(mi), 0);
        let s = SegmentView::Key(k);
        let at2 = at.push(s);
        assert(at2.drop_last() =~= at);
        lemma_value_push(n, at, s, 0);
        lemma_ascending_index(nm, i);
        lemma_value_push(o, at, s, 0);
        lemma_value_push(cur_i, at, s, 0);
        lemma_entry_index(om, k);
        lemma_entry_index(mi, k);
        let ov = old_entry(om, k);
        assert(map_view(mi).contains_key(k) == map_view(om).contains_key(k));
        let e = entry_index(mi, k);
        if has_entry(om, k) {
            assert(map_view(mi)[k] == map_view(om)[k]);
            assert(mi[e].1 == ov->Some_0);
            lemma_map_with_existing(mi, e, nvk);
        }
        if unchanged(ov, nvk) {
            assert(value_from(o, at2, 0) is Ok && value_from(n, at2, 0) is Ok);
            assert(ov->Some_0 == nvk);
            assert(mi.update(e, (k, nvk)) =~= mi);
            assert(concat(parts.take(i)) + parts[i] =~= concat(parts.take(i)));
        } else {
            assert(decreases_to!(ValueView::Mapping(nm) => nm));
            assert(decreases_to!(nm => nm[i]));
            lemma_diff_run(o, n, at2, ov, nvk, parts[i], cur_i);
            match ov {
                Some(_) => {
                    lemma_set_push(cur_i, at, s, nvk, 0);
                },
                None => {},
            }
        }
        lemma_set_set(cur, at, ValueView::Mapping(mi), ValueView::Mapping(mfold(om, nm, j)), 0);
    }
}

/// Runs the deletions of the first `d` old keys that the new map lacks.
proof fn lemma_map_deletes_run(
    o: ValueView,
    at: Seq<SegmentView>,
    om: Seq<(Seq<char>, ValueView)>,
    nm: Seq<(Seq<char>, ValueView)>,
    cur: ValueView,
    d: int,
)
    requires
        value_from(cur, at, 0) is Ok,
        keys_ascending(om),
        keys_ascending(nm),
        0 <= d <= om.len(),
    ensures
        run_from(
            Some(o),
            Some(set_from(cur, at, 0, ValueView::Mapping(mfold(om, nm, nm.len() as int)))),
            map_deletes(at, om.take(d), nm),
        ) == Outcome::<Option<ValueView>>::Ok(
            Some(
                set_from(
                    cur,
                    at,
                    0,
                    ValueView::Mapping(dfold(mfold(om, nm, nm.len() as int), om, nm, d)),
                ),
            ),
        ),
    decreases d,
{
    let mm = mfold(om, nm, nm.len() as int);
    let c0 = set_from(cur, at, 0, ValueView::Mapping(mm));
    if d == 0 {
        assert(om.take(0) =~= Seq::<(Seq<char>, ValueView)>::empty());
    } else {
        lemma_map_deletes_run(o, at, om, nm, cur, d - 1);
        let t = om.take(d);
        assert(t.drop_last() =~= om.take(d - 1));
        assert(t.last() == om[d - 1]);
        let k = om[d - 1].0;
        let prev = dfold(mm, om, nm, d - 1);
        let c1 = set_from(cur, at, 0, ValueView::Mapping(prev));
        if !has_entry(nm, k) {
            let s = SegmentView::Key(k);
            let at2 = at.push(s);
            let del = ActionView::Delete(at2);
            lemma_run_concat(Some(o), Some(c0), map_deletes(at, om.take(d - 1), nm), seq![del]);
            lemma_run_one(Some(o), Some(c1), del);
            lemma_value_set(cur, at, ValueView::Mapping(prev), 0);
            lemma_edit_push(c1, at, s, EditView::Delete, 0);
            lemma_dfold_has(om, nm, d - 1);
            lemma_set_set(cur, at, ValueView::Mapping(prev), ValueView::Mapping(dfold(mm, om, nm, d)), 0);
        } else {
            assert(map_deletes(at, t, nm) =~= map_deletes(at, om.take(d - 1), nm));
        }
    }
}

/// Law: a diff applies. Applying the actions of a diff at `at` to `cur`,
/// which holds the old value there (or has room for the new one), leaves the
/// new value there, and everything else as it was.
pub proof fn lemma_diff_run(
    o: ValueView,
    n: ValueView,
    at: Seq<SegmentView>,
    ov: Option<ValueView>,
    nv: ValueView,
    acts: Seq<ActionView>,
    cur: ValueView,
)
    requires
        diff_pre(o, n, at, ov, nv, cur),
        diff_ok(index_of(o, Seq::empty()), at, ov, nv, acts),
    ensures
        run_from(Some(o), Some(cur), acts) == Outcome::<Option<ValueView>>::Ok(
            Some(diff_target(cur, at, ov, nv)),
        ),
    decreases nv, 2int, 0int,
{
    match ov {
        Some(ValueView::Mapping(om)) => {
            if nv is Mapping {
                lemma_map_diff_run(o, n, at, om, nv->Mapping_0, acts, cur);
            } else {
                lemma_leaf_run(o, n, at, ov, nv, acts, cur);
            }
        },
        Some(ValueView::Array(oa)) => {
            if nv is Array {
                lemma_array_diff_run(o, n, at, oa, nv->Array_0, acts, cur);
            } else {
                lemma_leaf_run(o, n, at, ov, nv, acts, cur);
            }
        },
        _ => {
            lemma_leaf_run(o, n, at, ov, nv, acts, cur);
        },
    }
}

/// A map diff applies.
proof fn lemma_map_diff_run(
    o: ValueView,
    n: ValueView,
    at: Seq<SegmentView>,
    om: Seq<(Seq<char>, ValueView)>,
    nm: Seq<(Seq<char>, ValueView)>,
    acts: Seq<ActionView>,
    cur: ValueView,
)
    requires
        diff_pre(o, n, at, Some(ValueView::Mapping(om)), ValueView::Mapping(nm), cur),
        diff_ok(index_of(o, Seq::empty()), at, Some(ValueView::Mapping(om)), ValueView::Mapping(nm), acts),
    ensures
        run_from(Some(o), Some(cur), acts) == Outcome::<Option<ValueView>>::Ok(
            Some(set_from(cur, at, 0, ValueView::Mapping(nm))),
        ),
    decreases ValueView::Mapping(nm), 1int, nm.len() + 1,
{
    let idx = index_of(o, Seq::empty());
    let parts = choose|parts: Seq<Seq<ActionView>>|
        {
            &&& parts.len() == nm.len()
            &&& acts == #[trigger] concat(parts) + map_deletes(at, om, nm)
            &&& forall|i: int|
                0 <= i < nm.len() ==> if unchanged(old_entry(om, nm[i].0), nm[i].1) {
                    (#[trigger] parts[i]).len() == 0
                } else {
                    diff_ok(
                        idx,
                        at.push(SegmentView::Key(nm[i].0)),
                        old_entry(om, nm[i].0),
                        nm[i].1,
                        parts[i],
                    )
                }
        };
    lemma_canonical_sub(o, at, 0);
    lemma_canonical_sub(n, at, 0);
    lemma_map_run(o, n, at, om, nm, parts, cur, nm.len() as int);
    assert(parts.take(nm.len() as int) =~= parts);
    lemma_map_deletes_run(o, at, om, nm, cur, om.len() as int);
    assert(om.take(om.len() as int) =~= om);
    lemma_run_concat(Some(o), Some(cur), concat(parts), map_deletes(at, om, nm));
    let mm = mfold(om, nm, nm.len() as int);
    lemma_set_set(cur, at, ValueView::Mapping(mm), ValueView::Mapping(dfold(mm, om, nm, om.len() as int)), 0);
    lemma_map_final(om, nm);
}

/// The old items with the first `j` replaced by the new ones, or followed
/// by them past the old length.
pub open spec fn afold(oa: Seq<ValueView>, na: Seq<ValueView>, j: int) -> Seq<ValueView> {
    Seq::new(
        if oa.len() >= j {
            oa.len()
        } else {
            j as nat
        },
        |i: int|
            if i < j {
                na[i]
            } else {
                oa[i]
            },
    )
}

/// Runs the parts of the first `j` new items of an array diff.
proof fn lemma_array_run(
    o: ValueView,
    n: ValueView,
    at: Seq<SegmentView>,
    oa: Seq<ValueView>,
    na: Seq<ValueView>,
    parts: Seq<Seq<ActionView>>,
    cur: ValueView,
    j: int,
)
    requires
        canonical(o),
        canonical(n),
        no_collision(o, n),
        value_from(o, at, 0) == Outcome::<ValueView>::Ok(ValueView::Array(oa)),
        value_from(cur, at, 0) == Outcome::<ValueView>::Ok(ValueView::Array(oa)),
        value_from(n, at, 0) == Outcome::<ValueView>::Ok(ValueView::Array(na)),
        parts.len() == na.len(),
        forall|i: int|
            0 <= i < na.len() ==> if i < oa.len() && view_digest(oa[i]) == view_digest(na[i]) {
                (#[trigger] parts[i]).len() == 0
            } else if i < oa.len() && (kind_of(oa[i]) != kind_of(na[i]) || !(na[i] is Mapping
                || na[i] is Array)) {
                parts[i] == seq![ActionView::Replace(at.push(SegmentView::Index(i as nat)), na[i])]
            } else {
                diff_ok(
                    index_of(o, Seq::empty()),
                    at.push(SegmentView::Index(i as nat)),
                    if i < oa.len() {
                        Some(oa[i])
                    } else {
                        None
                    },
                    na[i],
                    parts[i],
                )
            },
        0 <= j <= na.len(),
    ensures
        run_from(Some(o), Some(cur), concat(parts.take(j))) == Outcome::<Option<ValueView>>::Ok(
            Some(set_from(cur, at, 0, ValueView::Array(afold(oa, na, j)))),
        ),
    decreases ValueView::Array(na), 1int, j,
{
    if j == 0 {
        assert(parts.take(0) =~= Seq::<Seq<ActionView>>::empty());
        assert(afold(oa, na, 0) =~= oa);
        lemma_set_same(cur, at, 0);
    } else {
        let i = j - 1;
        lemma_array_run(o, n, at, oa, na, parts, cur, i);
        let ai = afold(oa, na, i);
        let aj = afold(oa, na, j);
        let cur_i = set_from(cur, at, 0, ValueView::Array(ai));
        assert(parts.take(j).drop_last() =~= parts.take(i));
        assert(parts.take(j).last() == parts[i]);
        lemma_run_concat(Some(o), Some(cur), concat(parts.take(i)), parts[i]);
        lemma_value_set(cur, at, ValueView::Array(ai), 0);
        let s = SegmentView::Index(i as nat);
        let at2 = at.push(s);
        assert(at2.drop_last() =~= at);
        lemma_value_push(n, at, s, 0);
        lemma_value_push(o, at, s, 0);
        lemma_value_push(cur_i, at, s, 0);
        if i < oa.len() && view_digest(oa[i]) == view_digest(na[i]) {
            assert(value_from(o, at2, 0) is Ok && value_from(n, at2, 0) is Ok);
            assert(oa[i] == na[i]);
            assert(aj =~= ai);
            assert(concat(parts.take(i)) + parts[i] =~= concat(parts.take(i)));
        } else if i < oa.len() && (kind_of(oa[i]) != kind_of(na[i]) || !(na[i] is Mapping
            || na[i] is Array)) {
            let rep = ActionView::Replace(at2, na[i]);
            lemma_run_one(Some(o), Some(cur_i), rep);
            lemma_edit_push(cur_i, at, s, EditView::Replace(na[i]), 0);
            assert(ai.update(i, na[i]) =~= aj);
        } else {
            let ov = if i < oa.len() {
                Some(oa[i])
            } else {
                None
            };
            assert(decreases_to!(ValueView::Array(na) => na));
            lemma_diff_run(o, n, at2, ov, na[i], parts[i], cur_i);
            match ov {
                Some(_) => {
                    lemma_set_push(cur_i, at, s, na[i], 0);
                    assert(ai.update(i, na[i]) =~= aj);
                },
                None => {
                    assert(ai.insert(i, na[i]) =~= aj);
                },
            }
        }
        lemma_set_set(cur, at, ValueView::Array(ai), ValueView::Array(aj), 0);
    }
}

/// Runs the deletions of the items past the new length, from the last one.
proof fn lemma_array_deletes_run(
    o: ValueView,
    at: Seq<SegmentView>,
    na: Seq<ValueView>,
    cur: ValueView,
    a: Seq<ValueView>,
)
    requires
        value_from(cur, at, 0) is Ok,
        na.len() <= a.len(),
        forall|i: int| 0 <= i < na.len() ==> a[i] == na[i],
    ensures
        run_from(
            Some(o),
            Some(set_from(cur, at, 0, ValueView::Array(a))),
            array_deletes(at, a.len(), na.len()),
        ) == Outcome::<Option<ValueView>>::Ok(Some(set_from(cur, at, 0, ValueView::Array(na)))),
    decreases a.len(),
{
    let c = set_from(cur, at, 0, ValueView::Array(a));
    if a.len() <= na.len() {
        assert(a =~= na);
    } else {
        let m = a.len() - 1;
        let s = SegmentView::Index(m as nat);
        let at2 = at.push(s);
        let del = ActionView::Delete(at2);
        let rest = array_deletes(at, m as nat, na.len());
        assert(array_deletes(at, a.len(), na.len()) == seq![del] + rest);
        lemma_run_concat(Some(o), Some(c), seq![del], rest);
        lemma_run_one(Some(o), Some(c), del);
        lemma_value_set(cur, at, ValueView::Array(a), 0);
        lemma_edit_push(c, at, s, EditView::Delete, 0);
        let a2 = a.remove(m);
        lemma_set_set(cur, at, ValueView::Array(a), ValueView::Array(a2), 0);
        lemma_array_deletes_run(o, at, na, cur, a2);
    }
}

/// An array diff applies.
proof fn lemma_array_diff_run(
    o: ValueView,
    n: ValueView,
    at: Seq<SegmentView>,
    oa: Seq<ValueView>,
    na: Seq<ValueView>,
    acts: Seq<ActionView>,
    cur: ValueView,
)
    requires
        diff_pre(o, n, at, Some(ValueView::Array(oa)), ValueView::Array(na), cur),
        diff_ok(index_of(o, Seq::empty()), at, Some(ValueView::Array(oa)), ValueView::Array(na), acts),
    ensures
        run_from(Some(o), Some(cur), acts) == Outcome::<Option<ValueView>>::Ok(
            Some(set_from(cur, at, 0, ValueView::Array(na))),
        ),
    decreases ValueView::Array(na), 1int, na.len() + 1,
{
    let idx = index_of(o, Seq::empty());
    let parts = choose|parts: Seq<Seq<ActionView>>|
        {
            &&& parts.len() == na.len()
            &&& acts == #[trigger] concat(parts) + array_deletes(at, oa.len(), na.len())
            &&& forall|i: int|
                0 <= i < na.len() ==> if i < oa.len() && view_digest(oa[i]) == view_digest(na[i]) {
                    (#[trigger] parts[i]).len() == 0
                } else if i < oa.len() && (kind_of(oa[i]) != kind_of(na[i]) || !(na[i] is Mapping
                    || na[i] is Array)) {
                    parts[i] == seq![ActionView::Replace(at.push(SegmentView::Index(i as nat)), na[i])]
                } else {
                    diff_ok(
                        idx,
                        at.push(SegmentView::Index(i as nat)),
                        if i < oa.len() {
                            Some(oa[i])
                        } else {
                            None
                        },
                        na[i],
                        parts[i],
                    )
                }
        };
    lemma_array_run(o, n, at, oa, na, parts, cur, na.len() as int);
    assert(parts.take(na.len() as int) =~= parts);
    let a = afold(oa, na, na.len() as int);
    lemma_run_concat(Some(o), Some(cur), concat(parts), array_deletes(at, oa.len(), na.len()));
    if oa.len() > na.len() {
        lemma_array_deletes_run(o, at, na, cur, a);
    } else {
        assert(a =~= na);
        assert(array_deletes(at, oa.len(), na.len()) =~= Seq::<ActionView>::empty());
    }
}

/// Law: a plan applies. The actions planned from the document `last` (if
/// any) to `current`, applied to `last`, give `current`, provided no
/// subvalue of `last` shares its content hash with a different subvalue of
/// `current`.
pub proof fn lemma_plan_applies(last: Option<ValueView>, current: ValueView, acts: Seq<ActionView>)
    requires
        planned(last, current, acts),
        canonical(current),
        last matches Some(o) ==> canonical(o) && no_collision(o, current),
    ensures
        apply_message(last, acts) == Outcome::<Option<ValueView>>::Ok(Some(current)),
{
    match last {
        None => {
            lemma_run_one(None, None, ActionView::Snapshot(current));
        },
        Some(o) => {
            let e = Seq::<SegmentView>::empty();
            assert(value_from(current, e, 0) == Outcome::<ValueView>::Ok(current));
            assert(value_from(o, e, 0) == Outcome::<ValueView>::Ok(o));
            lemma_diff_run(o, current, e, Some(o), current, acts, o);
        },
    }
}

/// Law: a consumer follows its producer. When a producer packed the plan
/// from `last` to `current` against the pools `(s0, p0)`, which became
/// `(s1, p1)`, declaring the supported protocol on the stream's first
/// message, a consumer holding the pools `(s0, p0)` and at the same point of
/// the stream reads the message into the pools `(s1, p1)` and actions that
/// turn `last` into `current` (with the same proviso on content hashes as
/// `lemma_plan_applies`).
pub proof fn lemma_sync(
    last: Option<ValueView>,
    current: ValueView,
    p: Seq<u8>,
    declare: Option<u32>,
    s0: Map<u32, Seq<char>>,
    p0: Map<u32, Seq<SegmentView>>,
    s1: Map<u32, Seq<char>>,
    p1: Map<u32, Seq<SegmentView>>,
)
    requires
        produced(last, current, p, declare, s0, p0, s1, p1),
        declare matches Some(v) ==> v == SUPPORTED_PROTOCOL,
        canonical(current),
        last matches Some(o) ==> canonical(o) && no_collision(o, current),
    ensures
        dec_message(p, declare is Some, s0, p0) matches Some((acts, s2, p2)) && s2 == s1 && p2 == p1
            && apply_message(last, acts) == Outcome::<Option<ValueView>>::Ok(Some(current)),
{
    let acts = choose|acts: Seq<ActionView>|
        planned(last, current, acts) && #[trigger] packed_as(p, declare, acts, s0, p0, s1, p1);
    let (sp, pp) = choose|sp: Seq<(u32, Seq<char>)>, pp: Seq<(u32, Seq<SegmentView>)>|
        crate::message::packed::frame::prepared(s0, p0, sp, pp, s1, p1)
            && crate::message::packed::frame::actions_ready(acts, p1) && p
            == #[trigger] crate::message::packed::frame::enc_message(declare, acts, sp, pp, s1, p1);
    lemma_message_roundtrip(declare, acts, sp, pp, s0, p0, s1, p1);
    lemma_plan_applies(last, current, acts);
}

/// Whether a consumer is in step with a producer: it holds the producer's
/// pools, knows the protocol exactly when the producer has declared it, and
/// holds the producer's last emitted document.
pub open spec fn in_step(p: &Producer, c: &Consumer) -> bool {
    &&& c.strings() == p.strings()
    &&& c.paths() == p.paths()
    &&& c.initialized() == p.declared()
    &&& c.doc() == p.last()
}

/// Law: a consumer follows its producer along the stream. A consumer in
/// step with the producer `p0` that reads the message `m` which
/// `produce_diff` gave, leaving the producer `p1`, succeeds, holds the
/// producer's current document, and is in step with `p1` again (with the
/// proviso on content hashes of `lemma_plan_applies`). `c1` and `r` are the
/// consumer and the result that `consume_diff` leaves on `m`, as its
/// contract states them.
pub proof fn lemma_stream_step(p0: Producer, p1: Producer, m: Seq<u8>, c0: Consumer, c1: Consumer, r: Result<()>)
    requires
        in_step(&p0, &c0),
        p0.protocol() == SUPPORTED_PROTOCOL,
        canonical(p0.current()),
        p0.last() matches Some(l) ==> canonical(l) && no_collision(l, p0.current()),
        produced(p0.last(), p0.current(), m, p0.declaration(), p0.strings(), p0.paths(), p1.strings(), p1.paths()),
        p1.last() == Some(p0.current()),
        p1.declared(),
        match dec_message(m, !c0.initialized(), c0.strings(), c0.paths()) {
            None => {
                &&& r matches Err(e) && e.spec_kind() == ErrorKind::InvalidData
                &&& c1.strings() == c0.strings()
                &&& c1.paths() == c0.paths()
                &&& c1.doc() == c0.doc()
                &&& c1.initialized() == c0.initialized()
            },
            Some((acts, s2, q2)) => match apply_message(c0.doc(), acts) {
                Outcome::Ok(d) => {
                    &&& r is Ok
                    &&& c1.strings() == s2
                    &&& c1.paths() == q2
                    &&& c1.doc() == d
                    &&& c1.initialized()
                },
                Outcome::Err(k) => {
                    &&& r matches Err(e) && e.spec_kind() == k
                    &&& c1.strings() == c0.strings()
                    &&& c1.paths() == c0.paths()
                    &&& c1.doc() == c0.doc()
                    &&& c1.initialized() == c0.initialized()
                },
            },
        },
    ensures
        r is Ok,
        c1.doc() == Some(p0.current()),
        in_step(&p1, &c1),
{
    lemma_sync(p0.last(), p0.current(), m, p0.declaration(), p0.strings(), p0.paths(), p1.strings(), p1.paths());
}

} // verus!
