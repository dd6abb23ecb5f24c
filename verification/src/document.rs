//! Documents: a root value, with an index of its subvalues by content hash.

use vstd::prelude::*;

use crate::error::Result;
use crate::patch::{Path, PathSegment, SegmentView};
use crate::value::{canonical, items_view, pairs_view, view_digest, Value, ValueInner, ValueView};

verus! {

/// Every subvalue of `v`, children before their parent, items and entries
/// in order: its content hash and its path, `at` followed by the segments
/// from `v` down to it.
pub open spec fn index_of(v: ValueView, at: Seq<SegmentView>) -> Seq<(Seq<u8>, Seq<SegmentView>)>
    decreases v,
{
    match v {
        ValueView::Array(items) => items_index(items, at) + seq![(view_digest(v), at)],
        ValueView::Mapping(es) => entries_index(es, at) + seq![(view_digest(v), at)],
        _ => seq![(view_digest(v), at)],
    }
}

/// The index of each item in turn, the item at position `i` under
/// `at` followed by that index.
pub open spec fn items_index(items: Seq<ValueView>, at: Seq<SegmentView>) -> Seq<
    (Seq<u8>, Seq<SegmentView>),
>
    decreases items,
{
    if items.len() == 0 {
        Seq::empty()
    } else {
        items_index(items.subrange(0, items.len() - 1), at) + index_of(
            items[items.len() - 1],
            at.push(SegmentView::Index((items.len() - 1) as nat)),
        )
    }
}

/// The index of each entry's value in turn, under `at` followed by the key.
pub open spec fn entries_index(es: Seq<(Seq<char>, ValueView)>, at: Seq<SegmentView>) -> Seq<
    (Seq<u8>, Seq<SegmentView>),
>
    decreases es,
{
    if es.len() == 0 {
        Seq::empty()
    } else {
        let e = es[es.len() - 1];
        proof {
            assert(decreases_to!(es => es[es.len() - 1]));
        }
        entries_index(es.subrange(0, es.len() - 1), at) + index_of(
            e.1,
            at.push(SegmentView::Key(e.0)),
        )
    }
}

/// The path that the index gives for `h`: the last one listed with it.
pub open spec fn index_lookup(idx: Seq<(Seq<u8>, Seq<SegmentView>)>, h: Seq<u8>) -> Option<
    Seq<SegmentView>,
>
    decreases idx.len(),
{
    if idx.len() == 0 {
        None
    } else if idx.last().0 == h {
        Some(idx.last().1)
    } else {
        index_lookup(idx.drop_last(), h)
    }
}

/// A subvalue's path, under its content hash.
#[derive(Debug)]
pub struct IndexEntry {
    pub path: Path,
    pub hash: [u8; 32],
}

/// The views of index entries.
pub open spec fn entries_view(s: Seq<IndexEntry>) -> Seq<(Seq<u8>, Seq<SegmentView>)> {
    s.map_values(|e: IndexEntry| (e.hash@, e.path@))
}

/// A document: its root value, and the path of each of its subvalues by
/// content hash.
#[derive(Debug)]
pub struct Document {
    index: Vec<IndexEntry>,
    value: Value,
}

impl View for Document {
    type V = ValueView;

    closed spec fn view(&self) -> ValueView {
        self.value@
    }
}

/// Appends the index of `value`, found at `path`.
fn update_index(index: &mut Vec<IndexEntry>, path: &mut Path, value: &Value)
    ensures
        entries_view(final(index)@) == entries_view(old(index)@) + index_of(value@, old(path)@),
        final(path)@ == old(path)@,
        canonical(value@),
    decreases value@,
{
    let ghost at = path@;
    let ghost start = entries_view(index@);
    match value.inner() {
        ValueInner::Array { items } => {
            let ghost s = items_view(items@);
            let mut i: usize = 0;
            proof {
                assert(s.subrange(0, 0) =~= Seq::<ValueView>::empty());
                assert(start + items_index(s.subrange(0, 0), at) =~= start);
            }
            while i < items.len()
                invariant
                    value@ == ValueView::Array(s),
                    s == items_view(items@),
                    i <= items@.len(),
                    path@ == at,
                    entries_view(index@) == start + items_index(s.subrange(0, i as int), at),
                decreases items@.len() - i,
            {
                let ghost before = entries_view(index@);
                proof {
                    assert(s[i as int] == items@[i as int]@);
                    assert(decreases_to!(value@ => value@->Array_0));
                    assert(decreases_to!(value@->Array_0 => value@->Array_0[i as int]));
                }
                path.push_segment(PathSegment::index(i));
                update_index(index, path, &items[i]);
                path.pop_segment();
                proof {
                    let t = s.subrange(0, i + 1);
                    assert(t.subrange(0, t.len() - 1) =~= s.subrange(0, i as int));
                    assert(t[t.len() - 1] == s[i as int]);
                    assert(entries_view(index@) =~= start + items_index(t, at));
                    assert(path@ =~= at);
                }
                i += 1;
            }
            proof {
                assert(s.subrange(0, i as int) =~= s);
            }
        },
        ValueInner::Mapping { entries } => {
            let ghost m = pairs_view(entries@);
            let mut i: usize = 0;
            proof {
                assert(m.subrange(0, 0) =~= Seq::<(Seq<char>, ValueView)>::empty());
                assert(start + entries_index(m.subrange(0, 0), at) =~= start);
            }
            while i < entries.len()
                invariant
                    value@ == ValueView::Mapping(m),
                    m == pairs_view(entries@),
                    i <= entries@.len(),
                    path@ == at,
                    entries_view(index@) == start + entries_index(m.subrange(0, i as int), at),
                decreases entries@.len() - i,
            {
                proof {
                    assert(m[i as int] == (entries@[i as int].0@, entries@[i as int].1@));
                    assert(decreases_to!(value@ => value@->Mapping_0));
                    assert(decreases_to!(value@->Mapping_0 => value@->Mapping_0[i as int]));
                    assert(decreases_to!(value@->Mapping_0[i as int] => value@->Mapping_0[i as int].1));
                }
                path.push_segment(PathSegment::key(entries[i].0.clone()));
                update_index(index, path, &entries[i].1);
                path.pop_segment();
                proof {
                    let t = m.subrange(0, i + 1);
                    assert(t.subrange(0, t.len() - 1) =~= m.subrange(0, i as int));
                    assert(t[t.len() - 1] == m[i as int]);
                    assert(entries_view(index@) =~= start + entries_index(t, at));
                    assert(path@ =~= at);
                }
                i += 1;
            }
            proof {
                assert(m.subrange(0, i as int) =~= m);
            }
        },
        _ => {},
    }
    let ghost mid = entries_view(index@);
    index.push(IndexEntry { path: path.duplicate(), hash: value.hash_bytes() });
    proof {
        assert(entries_view(index@) =~= mid + seq![(view_digest(value@), at)]);
        assert(entries_view(index@) =~= start + index_of(value@, at));
    }
}

/// Whether two hashes are equal.
fn same_hash(a: &[u8; 32], b: &[u8; 32]) -> (r: bool)
    ensures
        r == (a@ == b@),
{
    let mut i: usize = 0;
    while i < 32
        invariant
            i <= 32,
            a@.len() == 32,
            b@.len() == 32,
            forall|j: int| 0 <= j < i ==> a@[j] == b@[j],
        decreases 32 - i,
    {
        if a[i] != b[i] {
            return false;
        }
        i += 1;
    }
    proof {
        assert(a@ =~= b@);
    }
    true
}

impl Document {
    /// The index the document holds: a content hash and a path for each
    /// entry.
    pub closed spec fn index_view(&self) -> Seq<(Seq<u8>, Seq<SegmentView>)> {
        entries_view(self.index@)
    }

    /// The index lists the value's subvalues, and the value is canonical.
    #[verifier::type_invariant]
    pub closed spec fn well_formed(self) -> bool {
        &&& entries_view(self.index@) == index_of(self.value@, Seq::empty())
        &&& canonical(self.value@)
    }

    /// A well-formed document's value is canonical.
    pub proof fn lemma_canonical(self)
        requires
            self.well_formed(),
        ensures
            canonical(self@),
    {
    }

    /// A well-formed document's index lists each subvalue of its value,
    /// with its path, in the order [`index_of`] gives.
    pub proof fn lemma_index(self)
        requires
            self.well_formed(),
        ensures
            self.index_view() == index_of(self@, Seq::empty()),
    {
    }

    /// Law: a well-formed document's index lists its subvalues. For each
    /// path that reaches a subvalue of the document's value, the index holds
    /// that path under the subvalue's content hash; and each path that the
    /// index holds reaches a subvalue with the hash it is listed under.
    pub proof fn lemma_index_lists(self)
        requires
            self.well_formed(),
        ensures
            forall|p: Seq<SegmentView>|
                #[trigger] crate::consumer::applier::value_from(self@, p, 0) is Ok ==> self.index_view().contains(
                    (view_digest(crate::consumer::applier::value_from(self@, p, 0)->Ok_0), p),
                ),
            forall|j: int|
                0 <= j < self.index_view().len() ==> crate::consumer::applier::value_from(
                    self@,
                    #[trigger] self.index_view()[j].1,
                    0,
                ) is Ok && view_digest(
                    crate::consumer::applier::value_from(self@, self.index_view()[j].1, 0)->Ok_0,
                ) == self.index_view()[j].0,
    {
        crate::convergence::lemma_index_lists_subvalues(self@);
    }

    /// The document of `value`, with its index built.
    pub fn new(value: Value) -> (d: Self)
        ensures
            d@ == value@,
            d.index_view() == index_of(value@, Seq::empty()),
    {
        let mut index: Vec<IndexEntry> = Vec::new();
        let mut path = Path::empty();
        update_index(&mut index, &mut path, &value);
        proof {
            assert(entries_view(index@) =~= entries_view(Seq::<IndexEntry>::empty()) + index_of(value@, Seq::empty()));
        }
        Document { index, value }
    }

    /// A copy of the root value.
    pub fn value(&self) -> (v: Value)
        ensures
            v@ == self@,
    {
        self.value.duplicate()
    }

    /// The document of a copy of the value after `f` changed it; an error of
    /// `f` is returned as it is.
    pub fn modify<F>(&self, f: F) -> (r: Result<Self>)
        where
            F: FnOnce(&mut Value) -> Result<()>,
        requires
            forall|x: &mut Value| #[trigger] f.requires((x,)),
        ensures
            exists|x: &mut Value, out: Result<()>|
                (*x)@ == self@ && #[trigger] f.ensures((x,), out) && match out {
                    Ok(()) => r matches Ok(d) && d@ == (*final(x))@,
                    Err(e) => r == Result::<Document>::Err(e),
                },
    {
        let mut value = self.value.duplicate();
        f(&mut value)?;
        Ok(Document::new(value))
    }

    /// The root value.
    pub fn value_ref(&self) -> (v: &Value)
        ensures
            v@ == self@,
    {
        &self.value
    }

    /// The path that the index gives for the content hash `hash`.
    pub fn lookup(&self, hash: &[u8; 32]) -> (r: Option<&Path>)
        ensures
            match index_lookup(self.index_view(), hash@) {
                Some(p) => r matches Some(q) && q@ == p,
                None => r is None,
            },
    {
        proof {
            use_type_invariant(self);
        }
        let ghost idx = entries_view(self.index@);
        let mut n: usize = self.index.len();
        proof {
            assert(idx.take(n as int) =~= idx);
        }
        while n > 0
            invariant
                idx == entries_view(self.index@),
                idx == self.index_view(),
                n <= self.index@.len(),
                index_lookup(idx, hash@) == index_lookup(idx.take(n as int), hash@),
            decreases n,
        {
            let e = &self.index[n - 1];
            proof {
                let t = idx.take(n as int);
                assert(t.last() == (e.hash@, e.path@));
                assert(t.drop_last() =~= idx.take(n - 1));
            }
            if same_hash(&e.hash, hash) {
                return Some(&e.path);
            }
            n -= 1;
        }
        None
    }
}

impl Clone for Document {
    fn clone(&self) -> (d: Self)
        ensures
            d@ == self@,
    {
        Document::new(self.value())
    }
}

impl PartialEq for Document {
    fn eq(&self, other: &Self) -> (r: bool) {
        self.value.eq(&other.value)
    }
}

impl vstd::std_specs::cmp::PartialEqSpecImpl for Document {
    open spec fn obeys_eq_spec() -> bool {
        true
    }

    open spec fn eq_spec(&self, other: &Document) -> bool {
        view_digest(self@) == view_digest(other@)
    }
}

} // verus!
