//! Applying a message's actions to a document value.

use vstd::prelude::*;

use crate::error::{lemma_lex_order_antisym, lemma_lex_order_eq, Error, ErrorKind, Result};
use crate::document::Document;
use crate::message::packed::decoder::actions_view;
use crate::message::Message;
use crate::patch::{Action, ActionView, PathSegment, SegmentView};
use crate::value::{
    items_view, key_bytes, keys_ascending, map_with, pairs_view, Value, ValueInner, ValueView,
};

verus! {

/// A result that fails with an error kind.
pub type Outcome<T> = std::result::Result<T, ErrorKind>;

/// The position of the first entry from `i` on with the key `k`, or the
/// length when there is none.
pub open spec fn key_pos(m: Seq<(Seq<char>, ValueView)>, k: Seq<char>, i: nat) -> nat
    decreases m.len() - i,
{
    if i >= m.len() {
        m.len()
    } else if m[i as int].0 == k {
        i
    } else {
        key_pos(m, k, i + 1)
    }
}

/// The position of the first entry with the key `k`, or the length when
/// there is none.
pub open spec fn entry_index(m: Seq<(Seq<char>, ValueView)>, k: Seq<char>) -> int {
    key_pos(m, k, 0) as int
}

/// Whether some entry has the key `k`.
pub open spec fn has_entry(m: Seq<(Seq<char>, ValueView)>, k: Seq<char>) -> bool {
    entry_index(m, k) < m.len()
}

/// The first entry with a key is the first position holding it.
pub proof fn lemma_key_pos(m: Seq<(Seq<char>, ValueView)>, k: Seq<char>, i: nat)
    requires
        i <= m.len(),
    ensures
        i <= key_pos(m, k, i) <= m.len(),
        key_pos(m, k, i) < m.len() ==> m[key_pos(m, k, i) as int].0 == k,
        forall|j: int| i <= j < key_pos(m, k, i) ==> #[trigger] m[j].0 != k,
    decreases m.len() - i,
{
    if i < m.len() && m[i as int].0 != k {
        lemma_key_pos(m, k, i + 1);
    }
}

/// The entry with a key is at the position of its first occurrence.
pub proof fn lemma_entry_index(m: Seq<(Seq<char>, ValueView)>, k: Seq<char>)
    ensures
        0 <= entry_index(m, k) <= m.len(),
        has_entry(m, k) ==> m[entry_index(m, k)].0 == k,
        forall|j: int| 0 <= j < entry_index(m, k) ==> #[trigger] m[j].0 != k,
        forall|j: int| 0 <= j < m.len() && m[j].0 == k ==> entry_index(m, k) <= j,
        (exists|j: int| 0 <= j < m.len() && #[trigger] m[j].0 == k) ==> has_entry(m, k),
{
    lemma_key_pos(m, k, 0);
}

/// What an action does at the end of its path.
pub ghost enum EditView {
    Add(ValueView),
    Replace(ValueView),
    Delete,
}

/// The child of `v` named by `seg`: a map's entry or an array's item.
pub open spec fn child_at(v: ValueView, seg: SegmentView) -> Outcome<ValueView> {
    match seg {
        SegmentView::Key(k) => match v {
            ValueView::Mapping(m) => if has_entry(m, k) {
                Ok(m[entry_index(m, k)].1)
            } else {
                Err(ErrorKind::InvalidData)
            },
            _ => Err(ErrorKind::UnexpectedType),
        },
        SegmentView::Index(i) => match v {
            ValueView::Array(items) => if i < items.len() {
                Ok(items[i as int])
            } else {
                Err(ErrorKind::InvalidData)
            },
            _ => Err(ErrorKind::UnexpectedType),
        },
    }
}

/// `v` with its existing child at `seg` set to `c`.
pub open spec fn with_child(v: ValueView, seg: SegmentView, c: ValueView) -> ValueView {
    match seg {
        SegmentView::Key(k) => match v {
            ValueView::Mapping(m) => ValueView::Mapping(m.update(entry_index(m, k), (k, c))),
            _ => v,
        },
        SegmentView::Index(i) => match v {
            ValueView::Array(items) => ValueView::Array(items.update(i as int, c)),
            _ => v,
        },
    }
}

/// The container `v` after the edit of its child at `seg`: an added key is
/// set, an added index is inserted before the item there (or appended at the
/// end); a replaced or deleted child must exist.
pub open spec fn edit_leaf(v: ValueView, seg: SegmentView, e: EditView) -> Outcome<ValueView> {
    match seg {
        SegmentView::Key(k) => match v {
            ValueView::Mapping(m) => match e {
                EditView::Add(x) => Ok(ValueView::Mapping(map_with(m, k, x))),
                EditView::Replace(x) => if has_entry(m, k) {
                    Ok(ValueView::Mapping(m.update(entry_index(m, k), (k, x))))
                } else {
                    Err(ErrorKind::InvalidData)
                },
                EditView::Delete => if has_entry(m, k) {
                    Ok(ValueView::Mapping(m.remove(entry_index(m, k))))
                } else {
                    Err(ErrorKind::InvalidData)
                },
            },
            _ => Err(ErrorKind::UnexpectedType),
        },
        SegmentView::Index(i) => match v {
            ValueView::Array(items) => match e {
                EditView::Add(x) => if i <= items.len() {
                    Ok(ValueView::Array(items.insert(i as int, x)))
                } else {
                    Err(ErrorKind::InvalidData)
                },
                EditView::Replace(x) => if i < items.len() {
                    Ok(ValueView::Array(items.update(i as int, x)))
                } else {
                    Err(ErrorKind::InvalidData)
                },
                EditView::Delete => if i < items.len() {
                    Ok(ValueView::Array(items.remove(i as int)))
                } else {
                    Err(ErrorKind::InvalidData)
                },
            },
            _ => Err(ErrorKind::UnexpectedType),
        },
    }
}

/// `v` after the edit at the segments of `p` from position `i` on: the
/// segments before the last one must name existing children.
pub open spec fn edit_from(v: ValueView, p: Seq<SegmentView>, i: int, e: EditView) -> Outcome<ValueView>
    decreases p.len() - i,
{
    if i + 1 >= p.len() {
        edit_leaf(v, p[i], e)
    } else {
        match child_at(v, p[i]) {
            Ok(c) => match edit_from(c, p, i + 1, e) {
                Ok(c2) => Ok(with_child(v, p[i], c2)),
                Err(k) => Err(k),
            },
            Err(k) => Err(k),
        }
    }
}

/// The value found by following the segments of `p` from position `i` on.
pub open spec fn value_from(v: ValueView, p: Seq<SegmentView>, i: int) -> Outcome<ValueView>
    decreases p.len() - i,
{
    if i >= p.len() {
        Ok(v)
    } else {
        match child_at(v, p[i]) {
            Ok(c) => value_from(c, p, i + 1),
            Err(k) => Err(k),
        }
    }
}

/// One action applied to the current value `cur`; a copy reads its source
/// in `orig`, the document before the message.
pub open spec fn step(orig: Option<ValueView>, cur: Option<ValueView>, a: ActionView) -> Outcome<Option<ValueView>> {
    match a {
        ActionView::Snapshot(x) => Ok(Some(x)),
        ActionView::Add(p, x) => match cur {
            None => Err(ErrorKind::InvalidData),
            Some(c) => if p.len() == 0 {
                Err(ErrorKind::InvalidData)
            } else {
                match edit_from(c, p, 0, EditView::Add(x)) {
                    Ok(r) => Ok(Some(r)),
                    Err(k) => Err(k),
                }
            },
        },
        ActionView::Replace(p, x) => match cur {
            None => Err(ErrorKind::InvalidData),
            Some(c) => if p.len() == 0 {
                Ok(Some(x))
            } else {
                match edit_from(c, p, 0, EditView::Replace(x)) {
                    Ok(r) => Ok(Some(r)),
                    Err(k) => Err(k),
                }
            },
        },
        ActionView::Delete(p) => match cur {
            None => Err(ErrorKind::InvalidData),
            Some(c) => if p.len() == 0 {
                Err(ErrorKind::InvalidData)
            } else {
                match edit_from(c, p, 0, EditView::Delete) {
                    Ok(r) => Ok(Some(r)),
                    Err(k) => Err(k),
                }
            },
        },
        ActionView::Copy(p, from) => match cur {
            None => Err(ErrorKind::InvalidData),
            Some(c) => match orig {
                None => Err(ErrorKind::InvalidData),
                Some(o) => match value_from(o, from, 0) {
                    Err(k) => Err(k),
                    Ok(src) => if p.len() == 0 {
                        Ok(Some(src))
                    } else {
                        match edit_from(c, p, 0, EditView::Add(src)) {
                            Ok(r) => Ok(Some(r)),
                            Err(k) => Err(k),
                        }
                    },
                },
            },
        },
    }
}

/// The actions applied one after the other to `cur`; copies read their
/// sources in `orig`.
pub open spec fn run_from(orig: Option<ValueView>, cur: Option<ValueView>, acts: Seq<ActionView>) -> Outcome<Option<ValueView>>
    decreases acts.len(),
{
    if acts.len() == 0 {
        Ok(cur)
    } else {
        match run_from(orig, cur, acts.drop_last()) {
            Ok(c) => step(orig, c, acts.last()),
            Err(k) => Err(k),
        }
    }
}

/// The actions applied one after the other, starting from `orig`.
pub open spec fn run_actions(orig: Option<ValueView>, acts: Seq<ActionView>) -> Outcome<Option<ValueView>> {
    run_from(orig, orig, acts)
}

/// A message applied to the document `orig`: without a document, the first
/// action must be a snapshot.
pub open spec fn apply_message(orig: Option<ValueView>, acts: Seq<ActionView>) -> Outcome<Option<ValueView>> {
    if orig is None && !(acts.len() > 0 && acts[0] is Snapshot) {
        Err(ErrorKind::InvalidData)
    } else {
        run_actions(orig, acts)
    }
}

/// Keys in ascending order occur once.
pub proof fn lemma_keys_unique(m: Seq<(Seq<char>, ValueView)>, i: int, j: int)
    requires
        keys_ascending(m),
        0 <= i < m.len(),
        0 <= j < m.len(),
        m[i].0 == m[j].0,
    ensures
        i == j,
{
    lemma_lex_order_eq(key_bytes(m[i].0), key_bytes(m[j].0));
    if i < j {
        assert(lex_order_lt(m, i, j));
    } else if j < i {
        assert(lex_order_lt(m, j, i));
    }
}

spec fn lex_order_lt(m: Seq<(Seq<char>, ValueView)>, i: int, j: int) -> bool {
    crate::error::lex_order(key_bytes(m[i].0), key_bytes(m[j].0)) < 0
}

/// Setting a key that is there replaces its entry in place.
pub proof fn lemma_map_with_existing(m: Seq<(Seq<char>, ValueView)>, i: int, x: ValueView)
    requires
        keys_ascending(m),
        0 <= i < m.len(),
    ensures
        map_with(m, m[i].0, x) == m.update(i, (m[i].0, x)),
    decreases m.len(),
{
    let k = m[i].0;
    if i == 0 {
        lemma_lex_order_eq(key_bytes(k), key_bytes(m[0].0));
        assert(seq![(k, x)] + m.drop_first() =~= m.update(0, (k, x)));
    } else {
        assert(crate::error::lex_order(key_bytes(m[0].0), key_bytes(m[i].0)) < 0);
        lemma_lex_order_antisym(key_bytes(m[0].0), key_bytes(k));
        let t = m.drop_first();
        assert(t[i - 1] == m[i]);
        lemma_map_with_existing(t, i - 1, x);
        assert(seq![m[0]] + t.update(i - 1, (k, x)) =~= m.update(i, (k, x)));
    }
}

/// Replacing an entry's value keeps the keys ascending.
pub proof fn lemma_update_keeps_order(m: Seq<(Seq<char>, ValueView)>, i: int, x: ValueView)
    requires
        keys_ascending(m),
        0 <= i < m.len(),
    ensures
        keys_ascending(m.update(i, (m[i].0, x))),
{
    let r = m.update(i, (m[i].0, x));
    assert forall|a: int, b: int| 0 <= a < b < r.len() implies crate::error::lex_order(
        key_bytes(#[trigger] r[a].0),
        key_bytes(#[trigger] r[b].0),
    ) < 0 by {
        assert(r[a].0 == m[a].0 && r[b].0 == m[b].0);
    }
}

/// Removing an entry keeps the keys ascending.
pub proof fn lemma_remove_keeps_order(m: Seq<(Seq<char>, ValueView)>, i: int)
    requires
        keys_ascending(m),
        0 <= i < m.len(),
    ensures
        keys_ascending(m.remove(i)),
{
    let r = m.remove(i);
    assert forall|a: int, b: int| 0 <= a < b < r.len() implies crate::error::lex_order(
        key_bytes(#[trigger] r[a].0),
        key_bytes(#[trigger] r[b].0),
    ) < 0 by {
        let a2 = if a < i {
            a
        } else {
            a + 1
        };
        let b2 = if b < i {
            b
        } else {
            b + 1
        };
        assert(r[a] == m[a2] && r[b] == m[b2]);
    }
}

/// The position of the entry with `key`, if any.
pub(crate) fn find_key(entries: &[(String, Value)], key: &String) -> (r: Option<usize>)
    requires
        keys_ascending(pairs_view(entries@)),
    ensures
        match r {
            Some(i) => i < entries@.len() && has_entry(pairs_view(entries@), key@) && i
                == entry_index(pairs_view(entries@), key@) && pairs_view(entries@)[i as int].0
                == key@,
            None => !has_entry(pairs_view(entries@), key@),
        },
{
    let ghost m = pairs_view(entries@);
    let mut i: usize = 0;
    while i < entries.len()
        invariant
            m == pairs_view(entries@),
            keys_ascending(m),
            i <= entries@.len(),
            forall|j: int| 0 <= j < i ==> (#[trigger] m[j]).0 != key@,
        decreases entries@.len() - i,
    {
        if entries[i].0 == *key {
            proof {
                assert(m[i as int].0 == key@);
                lemma_entry_index(m, key@);
            }
            return Some(i);
        }
        proof {
            assert(m[i as int].0 != key@);
        }
        i += 1;
    }
    proof {
        lemma_entry_index(m, key@);
    }
    None
}

/// A copy of the entries.
fn clone_entries(entries: &[(String, Value)]) -> (r: Vec<(String, Value)>)
    ensures
        pairs_view(r@) == pairs_view(entries@),
{
    let mut out: Vec<(String, Value)> = Vec::new();
    let mut i: usize = 0;
    while i < entries.len()
        invariant
            i <= entries@.len(),
            out@.len() == i,
            forall|j: int|
                0 <= j < i ==> (#[trigger] out@[j]).0@ == entries@[j].0@ && out@[j].1@
                    == entries@[j].1@,
        decreases entries@.len() - i,
    {
        out.push((entries[i].0.clone(), entries[i].1.duplicate()));
        i += 1;
    }
    proof {
        assert(pairs_view(out@) =~= pairs_view(entries@));
    }
    out
}

/// A copy of the items.
fn clone_items(items: &[Value]) -> (r: Vec<Value>)
    ensures
        items_view(r@) == items_view(items@),
{
    let mut out: Vec<Value> = Vec::new();
    let mut i: usize = 0;
    while i < items.len()
        invariant
            i <= items@.len(),
            out@.len() == i,
            forall|j: int| 0 <= j < i ==> (#[trigger] out@[j])@ == items@[j]@,
        decreases items@.len() - i,
    {
        out.push(items[i].duplicate());
        i += 1;
    }
    proof {
        assert(items_view(out@) =~= items_view(items@));
    }
    out
}

/// The views of a path's segments.
pub open spec fn segs(p: Seq<PathSegment>) -> Seq<SegmentView> {
    p.map_values(|s: PathSegment| s@)
}

/// What an action does at the end of its path, with the value it brings.
pub enum Edit {
    Add(Value),
    Replace(Value),
    Delete,
}

impl View for Edit {
    type V = EditView;

    open spec fn view(&self) -> EditView {
        match self {
            Edit::Add(x) => EditView::Add(x@),
            Edit::Replace(x) => EditView::Replace(x@),
            Edit::Delete => EditView::Delete,
        }
    }
}

/// Applies `edit` at the segments of `path` from `start` on.
pub fn edit_at(current: &Value, path: &[PathSegment], start: usize, edit: &Edit) -> (r: Result<Value>)
    requires
        start < path@.len(),
    ensures
        match edit_from(current@, segs(path@), start as int, edit@) {
            Ok(v) => r matches Ok(x) && x@ == v,
            Err(k) => r matches Err(e) && e.spec_kind() == k,
        },
    decreases path@.len() - start,
{
    let ghost p = segs(path@);
    let last = path.len() - start == 1;
    proof {
        assert(p[start as int] == path@[start as int]@);
    }
    match &path[start] {
        PathSegment::Key(key) => {
            match current.inner() {
                ValueInner::Mapping { entries } => {
                    let ghost m = pairs_view(entries@);
                    let found = find_key(entries.as_slice(), key);
                    if last {
                        match edit {
                            Edit::Add(x) => {
                                let mut es = clone_entries(entries.as_slice());
                                crate::value::entries_set(&mut es, key.clone(), x.duplicate());
                                Ok(Value::inner_map(es))
                            },
                            Edit::Replace(x) => match found {
                                Some(i) => {
                                    let mut es = clone_entries(entries.as_slice());
                                    es.set(i, (key.clone(), x.duplicate()));
                                    proof {
                                        lemma_update_keeps_order(m, i as int, x@);
                                        assert(pairs_view(es@) =~= m.update(i as int, (key@, x@)));
                                    }
                                    Ok(Value::inner_map(es))
                                },
                                None => Err(Error::new(ErrorKind::InvalidData, "replace path does not exist")),
                            },
                            Edit::Delete => match found {
                                Some(i) => {
                                    let mut es = clone_entries(entries.as_slice());
                                    es.remove(i);
                                    proof {
                                        lemma_remove_keeps_order(m, i as int);
                                        assert(pairs_view(es@) =~= m.remove(i as int));
                                    }
                                    Ok(Value::inner_map(es))
                                },
                                None => Err(Error::new(ErrorKind::InvalidData, "delete path does not exist")),
                            },
                        }
                    } else {
                        match found {
                            Some(i) => {
                                proof {
                                    assert(m[i as int].1 == entries@[i as int].1@);
                                }
                                let child = edit_at(&entries[i].1, path, start + 1, edit)?;
                                let ghost cv = child@;
                                let mut es = clone_entries(entries.as_slice());
                                es.set(i, (key.clone(), child));
                                proof {
                                    lemma_update_keeps_order(m, i as int, cv);
                                    assert(pairs_view(es@) =~= m.update(i as int, (key@, cv)));
                                }
                                Ok(Value::inner_map(es))
                            },
                            None => Err(Error::new(ErrorKind::InvalidData, "path does not exist")),
                        }
                    }
                },
                _ => Err(Error::new(ErrorKind::UnexpectedType, "expected a map value")),
            }
        },
        PathSegment::Index(idx) => {
            let idx = *idx;
            match current.inner() {
                ValueInner::Array { items } => {
                    let ghost s = items_view(items@);
                    if last {
                        match edit {
                            Edit::Add(x) => {
                                if idx <= items.len() {
                                    let mut out = clone_items(items.as_slice());
                                    out.insert(idx, x.duplicate());
                                    proof {
                                        assert(items_view(out@) =~= s.insert(idx as int, x@));
                                    }
                                    Ok(Value::inner_array(out))
                                } else {
                                    Err(Error::new(ErrorKind::InvalidData, "add index is out of range"))
                                }
                            },
                            Edit::Replace(x) => {
                                if idx < items.len() {
                                    let mut out = clone_items(items.as_slice());
                                    out.set(idx, x.duplicate());
                                    proof {
                                        assert(items_view(out@) =~= s.update(idx as int, x@));
                                    }
                                    Ok(Value::inner_array(out))
                                } else {
                                    Err(Error::new(ErrorKind::InvalidData, "replace path does not exist"))
                                }
                            },
                            Edit::Delete => {
                                if idx < items.len() {
                                    let mut out = clone_items(items.as_slice());
                                    out.remove(idx);
                                    proof {
                                        assert(items_view(out@) =~= s.remove(idx as int));
                                    }
                                    Ok(Value::inner_array(out))
                                } else {
                                    Err(Error::new(ErrorKind::InvalidData, "delete path does not exist"))
                                }
                            },
                        }
                    } else {
                        if idx < items.len() {
                            let child = edit_at(&items[idx], path, start + 1, edit)?;
                            let ghost cv = child@;
                            let mut out = clone_items(items.as_slice());
                            out.set(idx, child);
                            proof {
                                assert(items_view(out@) =~= s.update(idx as int, cv));
                            }
                            Ok(Value::inner_array(out))
                        } else {
                            Err(Error::new(ErrorKind::InvalidData, "path does not exist"))
                        }
                    }
                },
                _ => Err(Error::new(ErrorKind::UnexpectedType, "expected an array value")),
            }
        },
    }
}

/// The value found at `path` in `root`.
pub fn value_at<'a>(root: &'a Value, path: &[PathSegment]) -> (r: Result<&'a Value>)
    ensures
        match value_from(root@, segs(path@), 0) {
            Ok(v) => r matches Ok(x) && x@ == v,
            Err(k) => r matches Err(e) && e.spec_kind() == k,
        },
{
    let ghost p = segs(path@);
    let mut cur: &'a Value = root;
    let mut i: usize = 0;
    while i < path.len()
        invariant
            p == segs(path@),
            i <= path@.len(),
            value_from(root@, p, 0) == value_from(cur@, p, i as int),
        decreases path@.len() - i,
    {
        proof {
            assert(p[i as int] == path@[i as int]@);
        }
        match &path[i] {
            PathSegment::Key(key) => match cur.inner() {
                ValueInner::Mapping { entries } => {
                    match find_key(entries.as_slice(), key) {
                        Some(j) => {
                            proof {
                                assert(pairs_view(entries@)[j as int].1 == entries@[j as int].1@);
                            }
                            cur = &entries[j].1;
                        },
                        None => {
                            return Err(Error::new(ErrorKind::InvalidData, "copy source path does not exist"));
                        },
                    }
                },
                _ => {
                    return Err(Error::new(ErrorKind::UnexpectedType, "expected a map value"));
                },
            },
            PathSegment::Index(idx) => match cur.inner() {
                ValueInner::Array { items } => {
                    if *idx < items.len() {
                        cur = &items[*idx];
                    } else {
                        return Err(Error::new(ErrorKind::InvalidData, "copy source path does not exist"));
                    }
                },
                _ => {
                    return Err(Error::new(ErrorKind::UnexpectedType, "expected an array value"));
                },
            },
        }
        i += 1;
    }
    Ok(cur)
}

/// Once an action fails, the rest of the message fails with it.
pub proof fn lemma_run_fails(orig: Option<ValueView>, acts: Seq<ActionView>, i: int, k: ErrorKind)
    requires
        0 <= i <= acts.len(),
        run_actions(orig, acts.take(i)) == Outcome::<Option<ValueView>>::Err(k),
    ensures
        run_actions(orig, acts) == Outcome::<Option<ValueView>>::Err(k),
    decreases acts.len() - i,
{
    if i < acts.len() {
        let t = acts.take(i + 1);
        assert(t.drop_last() =~= acts.take(i));
        lemma_run_fails(orig, acts, i + 1, k);
    } else {
        assert(acts.take(i) =~= acts);
    }
}

/// One action applied to `cur`; a copy reads its source in `orig`.
pub fn apply_action(orig: Option<&Value>, cur: Option<Value>, action: &Action) -> (r: Result<
    Option<Value>,
>)
    ensures
        match step(
            match orig {
                Some(o) => Some(o@),
                None => None,
            },
            match cur {
                Some(c) => Some(c@),
                None => None,
            },
            action@,
        ) {
            Ok(Some(v)) => r matches Ok(Some(x)) && x@ == v,
            Ok(None) => r matches Ok(None),
            Err(k) => r matches Err(e) && e.spec_kind() == k,
        },
{
    match action {
        Action::Snapshot { value } => Ok(Some(value.duplicate())),
        Action::Add { path, value } => {
            let current = match cur {
                Some(c) => c,
                None => {
                    return Err(Error::new(ErrorKind::InvalidData, "cannot add to an uninitialized document"));
                },
            };
            let segments = path.segments();
            if segments.len() == 0 {
                return Err(Error::new(ErrorKind::InvalidData, "add path must not be empty"));
            }
            let updated = edit_at(&current, segments, 0, &Edit::Add(value.duplicate()))?;
            Ok(Some(updated))
        },
        Action::Replace { path, value } => {
            let current = match cur {
                Some(c) => c,
                None => {
                    return Err(Error::new(ErrorKind::InvalidData, "cannot replace in an uninitialized document"));
                },
            };
            let segments = path.segments();
            if segments.len() == 0 {
                return Ok(Some(value.duplicate()));
            }
            let updated = edit_at(&current, segments, 0, &Edit::Replace(value.duplicate()))?;
            Ok(Some(updated))
        },
        Action::Delete { path } => {
            let current = match cur {
                Some(c) => c,
                None => {
                    return Err(Error::new(ErrorKind::InvalidData, "cannot delete from an uninitialized document"));
                },
            };
            let segments = path.segments();
            if segments.len() == 0 {
                return Err(Error::new(ErrorKind::InvalidData, "delete path must not be empty"));
            }
            let updated = edit_at(&current, segments, 0, &Edit::Delete)?;
            Ok(Some(updated))
        },
        Action::Copy { path, from } => {
            let current = match cur {
                Some(c) => c,
                None => {
                    return Err(Error::new(ErrorKind::InvalidData, "cannot copy in an uninitialized document"));
                },
            };
            let source_root = match orig {
                Some(o) => o,
                None => {
                    return Err(Error::new(ErrorKind::InvalidData, "copy source path does not exist"));
                },
            };
            let source = value_at(source_root, from.segments())?;
            let segments = path.segments();
            if segments.len() == 0 {
                return Ok(Some(source.duplicate()));
            }
            let updated = edit_at(&current, segments, 0, &Edit::Add(source.duplicate()))?;
            Ok(Some(updated))
        },
    }
}

/// The view of an optional document.
pub open spec fn doc_view(d: Option<&Document>) -> Option<ValueView> {
    match d {
        Some(x) => Some(x@),
        None => None,
    }
}

/// Applies messages to a document.
pub struct Applier<'d> {
    document: Option<&'d Document>,
}

impl<'d> Applier<'d> {
    /// The document the applier starts from.
    pub closed spec fn start(&self) -> Option<ValueView> {
        doc_view(self.document)
    }

    /// An applier for `document`.
    pub fn new(document: Option<&'d Document>) -> (a: Self)
        ensures
            a.start() == doc_view(document),
    {
        Applier { document }
    }

    /// The document after the message's actions, one after the other.
    /// Without a document the first action must be a snapshot.
    pub fn apply(&self, message: &Message) -> (r: Result<Option<Document>>)
        ensures
            match apply_message(self.start(), message@) {
                Ok(Some(v)) => r matches Ok(Some(d)) && d@ == v,
                Ok(None) => r matches Ok(None),
                Err(k) => r matches Err(e) && e.spec_kind() == k,
            },
    {
        let actions = message.actions();
        let ghost acts = actions_view(actions@);
        let ghost orig = self.start();
        let starts_with_snapshot = if actions.len() > 0 {
            match &actions[0] {
                Action::Snapshot { .. } => true,
                _ => false,
            }
        } else {
            false
        };
        proof {
            if actions@.len() > 0 {
                assert(acts[0] == actions@[0]@);
            }
            assert(starts_with_snapshot == (acts.len() > 0 && acts[0] is Snapshot));
            assert(self.document.is_none() == (orig is None));
        }
        if self.document.is_none() && !starts_with_snapshot {
            return Err(Error::new(ErrorKind::InvalidData, "the first message's first action must be a snapshot"));
        }
        let source: Option<&Value> = match self.document {
            Some(d) => Some(d.value_ref()),
            None => None,
        };
        let mut current: Option<Value> = match source {
            Some(v) => Some(v.duplicate()),
            None => None,
        };
        let mut i: usize = 0;
        proof {
            assert(acts.take(0) =~= Seq::<ActionView>::empty());
        }
        while i < actions.len()
            invariant
                acts == actions_view(actions@),
                acts == message@,
                orig == self.start(),
                !(orig is None && !(acts.len() > 0 && acts[0] is Snapshot)),
                orig == match source {
                    Some(v) => Some(v@),
                    None => None::<ValueView>,
                },
                i <= actions@.len(),
                run_actions(orig, acts.take(i as int)) == Outcome::<Option<ValueView>>::Ok(
                    match current {
                        Some(c) => Some(c@),
                        None => None,
                    },
                ),
            decreases actions@.len() - i,
        {
            proof {
                let t = acts.take(i + 1);
                assert(t.drop_last() =~= acts.take(i as int));
                assert(t.last() == actions@[i as int]@);
            }
            match apply_action(source, current, &actions[i]) {
                Ok(next) => {
                    current = next;
                },
                Err(e) => {
                    proof {
                        lemma_run_fails(orig, acts, i + 1, e.spec_kind());
                    }
                    return Err(e);
                },
            }
            i += 1;
        }
        proof {
            assert(acts.take(i as int) =~= acts);
        }
        match current {
            Some(v) => Ok(Some(Document::new(v))),
            None => Ok(None),
        }
    }
}

} // verus!
