//! Preparing a message's pool patches: each distinct string or path the
//! message uses is touched once, so that it becomes recently used, and the
//! ones not pooled yet are pooled and defined in the patch.
//!
//! While fewer values than the pool holds have been touched, the touched
//! keys lead the recency order, so an eviction never hits one of them: the
//! patch then defines each of its keys once.

use vstd::prelude::*;

use crate::error::{Error, ErrorKind, Result};
use crate::patch::{Path, PathSegment, SegmentView};
use crate::state::consumer_state::{patched, path_patch_view, string_patch_view};
use crate::state::pool::{insert_outcome, insert_spec, lemma_insert_outcome, valid_map, InsertResult};
use crate::state::producer_state::ProducerStateTxn;
use crate::state::{
    PATH_KEY_BYTES_LIMIT, PATH_PATCH_BYTES_LIMIT, PATH_POOL_CAPACITY, PATH_SEGMENTS_LIMIT,
    STRING_POOL_CAPACITY,
};
use crate::value::{pairs_view, items_view, Value, ValueInner, ValueView};

verus! {

/// A pool's own invariant, as preparation relies on it: each value under
/// one key below `cap`, and the recency order holding each key once.
pub open spec fn pool_facts<V>(m: Map<u32, V>, rec: Seq<u32>, cap: nat) -> bool {
    &&& valid_map(m, cap)
    &&& rec.no_duplicates()
    &&& rec.to_set() == m.dom()
    &&& rec.len() <= cap
}

/// The keys of a patch are pairwise distinct.
pub open spec fn distinct_keys<V>(patch: Seq<(u32, V)>) -> bool {
    forall|i: int, j: int| 0 <= i < j < patch.len() ==> patch[i].0 != patch[j].0
}

/// What preparation keeps while touching `seen` (pooled under `keys`) in a
/// pool that was `base` and has had `patch` applied since.
pub open spec fn touched<V>(
    m: Map<u32, V>,
    rec: Seq<u32>,
    cap: nat,
    seen: Seq<V>,
    keys: Seq<u32>,
    base: Map<u32, V>,
    patch: Seq<(u32, V)>,
) -> bool {
    &&& seen.len() == keys.len()
    &&& keys.len() <= rec.len()
    &&& keys.no_duplicates()
    &&& seen.no_duplicates()
    &&& forall|i: int|
        0 <= i < keys.len() ==> m.contains_key(#[trigger] keys[i]) && m[keys[i]] == seen[i]
    &&& forall|i: int| 0 <= i < keys.len() ==> keys.contains(#[trigger] rec[i])
    &&& forall|j: int| 0 <= j < keys.len() ==> rec.take(keys.len() as int).contains(#[trigger] keys[j])
    &&& m == patched(base, patch)
    &&& forall|i: int|
        0 <= i < patch.len() ==> keys.contains(#[trigger] patch[i].0) && (patch[i].0 as int) < cap
    &&& distinct_keys(patch)
}

/// Nothing touched yet.
pub proof fn lemma_touched_start<V>(m: Map<u32, V>, rec: Seq<u32>, cap: nat)
    ensures
        touched(m, rec, cap, Seq::empty(), Seq::empty(), m, Seq::empty()),
{
    assert(Seq::<u32>::empty().no_duplicates());
    assert(Seq::<V>::empty().no_duplicates());
}

/// The key that a pooling result reports.
pub open spec fn result_key(r: InsertResult) -> u32 {
    match r {
        InsertResult::Existing { key } => key,
        InsertResult::Inserted { key } => key,
        InsertResult::Replaced { key } => key,
    }
}

/// The patch after a pooling result: new values are defined.
pub open spec fn patch_after<V>(patch: Seq<(u32, V)>, r: InsertResult, v: V) -> Seq<(u32, V)> {
    match r {
        InsertResult::Existing { .. } => patch,
        _ => patch.push((result_key(r), v)),
    }
}

/// Touching a value not touched before, while fewer values than the pool
/// holds have been touched, keeps what preparation relies on.
pub proof fn lemma_touch<V>(
    m: Map<u32, V>,
    rec: Seq<u32>,
    cap: nat,
    seen: Seq<V>,
    keys: Seq<u32>,
    base: Map<u32, V>,
    patch: Seq<(u32, V)>,
    v: V,
    r: InsertResult,
    m2: Map<u32, V>,
    rec2: Seq<u32>,
)
    requires
        pool_facts(m, rec, cap),
        pool_facts(m2, rec2, cap),
        touched(m, rec, cap, seen, keys, base, patch),
        keys.len() < cap,
        !seen.contains(v),
        insert_spec(m, rec, cap, v, r, m2, rec2),
    ensures
        touched(
            m2,
            rec2,
            cap,
            seen.push(v),
            keys.push(result_key(r)),
            base,
            patch_after(patch, r, v),
        ),
{
    let t = keys.len() as int;
    let k = result_key(r);
    let keys2 = keys.push(k);
    let seen2 = seen.push(v);
    let patch2 = patch_after(patch, r, v);
    // The new key was not touched before.
    assert(!keys.contains(k)) by {
        if keys.contains(k) {
            let i = choose|i: int| 0 <= i < keys.len() && keys[i] == k;
            assert(m.contains_key(keys[i]) && m[keys[i]] == seen[i]);
            if r is Existing {
                assert(m[k] == v);
                assert(seen.contains(v));
            } else if r is Inserted {
                assert(!m.contains_key(k));
            } else {
                // Replaced: the evicted key is the last of `rec`, at a
                // position `t` or later, where no touched key stands.
                assert(k == rec.last());
                assert(rec.len() == cap);
                assert(rec.take(t).contains(keys[i]));
                let j = choose|j: int| 0 <= j < t && rec.take(t)[j] == keys[i];
                assert(rec[j] == rec[rec.len() - 1]);
                assert(j != rec.len() - 1);
            }
        }
    }
    assert(keys2.no_duplicates()) by {
        assert forall|a: int, b: int| 0 <= a < b < keys2.len() implies keys2[a] != keys2[b] by {
            if b == t {
                assert(keys.contains(keys2[a]));
            }
        }
    }
    assert(seen2.no_duplicates()) by {
        assert forall|a: int, b: int| 0 <= a < b < seen2.len() implies seen2[a] != seen2[b] by {
            if b == t {
                assert(seen.contains(seen2[a]));
            }
        }
    }
    // The map keeps the touched values and gains the new one.
    assert(m2.contains_key(k) && m2[k] == v);
    assert forall|i: int| 0 <= i < keys2.len() implies m2.contains_key(#[trigger] keys2[i])
        && m2[keys2[i]] == seen2[i] by {
        if i < t {
            assert(keys2[i] == keys[i]);
            assert(keys[i] != k);
        }
    }
    // The touched keys still lead the recency order.
    if r is Existing {
        assert(rec.contains(k)) by {
            assert(m.contains_key(k));
            assert(rec.to_set().contains(k));
        }
        let j = rec.index_of(k);
        assert(j >= t) by {
            if j < t {
                assert(keys.contains(rec[j]));
            }
        }
        assert(rec2 == seq![k] + rec.remove(j));
    } else if r is Inserted {
        assert(!rec.contains(k)) by {
            if rec.contains(k) {
                let j = rec.index_of(k);
                assert(rec.to_set().contains(k));
            }
        }
        assert(rec2 == seq![k] + rec);
    } else {
        assert(rec.len() == cap);
        assert(rec2 == seq![rec.last()] + rec.drop_last());
    }
    assert forall|i: int| 0 <= i < keys2.len() implies keys2.contains(#[trigger] rec2[i]) by {
        if i > 0 {
            assert(rec2[i] == rec[i - 1]);
            assert(keys.contains(rec[i - 1]));
            let a = choose|a: int| 0 <= a < keys.len() && keys[a] == rec[i - 1];
            assert(keys2[a] == rec[i - 1]);
        } else {
            assert(keys2[t] == k);
        }
    }
    assert forall|j: int| 0 <= j < keys2.len() implies rec2.take(keys2.len() as int).contains(
        #[trigger] keys2[j],
    ) by {
        if j < t {
            assert(rec.take(t).contains(keys[j]));
            let a = choose|a: int| 0 <= a < t && rec.take(t)[a] == keys[j];
            assert(rec2.take(t + 1)[a + 1] == rec2[a + 1]);
            assert(rec2[a + 1] == rec[a]);
        } else {
            assert(rec2.take(t + 1)[0] == k);
        }
    }
    // The patch.
    if r is Existing {
        assert(m2 == m);
    } else {
        assert(m2 == m.insert(k, v));
        assert(patched(base, patch2) == patched(base, patch).insert(k, v)) by {
            assert(patch2.drop_last() =~= patch);
        }
        assert forall|i: int| 0 <= i < patch2.len() implies keys2.contains(#[trigger] patch2[i].0)
            && (patch2[i].0 as int) < cap by {
            if i < patch.len() {
                assert(patch2[i] == patch[i]);
                assert(keys.contains(patch[i].0));
                let a = choose|a: int| 0 <= a < keys.len() && keys[a] == patch[i].0;
                assert(keys2[a] == patch[i].0);
            } else {
                assert(keys2[t] == k);
                assert(m2.contains_key(k));
            }
        }
        assert(distinct_keys(patch2)) by {
            assert forall|a: int, b: int| 0 <= a < b < patch2.len() implies patch2[a].0
                != patch2[b].0 by {
                if b == patch.len() {
                    assert(patch2[a] == patch[a]);
                    assert(keys.contains(patch[a].0));
                }
            }
        }
    }
}

/// The texts of strings.
pub open spec fn texts(s: Seq<String>) -> Seq<Seq<char>> {
    s.map_values(|x: String| x@)
}

/// The views of paths.
pub open spec fn path_views(s: Seq<Path>) -> Seq<Seq<SegmentView>> {
    s.map_values(|x: Path| x@)
}

pub proof fn lemma_prefix_trans<A>(a: Seq<A>, b: Seq<A>, c: Seq<A>)
    requires
        a.is_prefix_of(b),
        b.is_prefix_of(c),
    ensures
        a.is_prefix_of(c),
{
    assert(a =~= c.subrange(0, a.len() as int)) by {
        assert forall|i: int| 0 <= i < a.len() implies a[i] == c[i] by {
            assert(a[i] == b[i]);
            assert(b[i] == c[i]);
        }
    }
}

/// What a prefix contains, the whole contains.
pub proof fn lemma_prefix_contains<A>(a: Seq<A>, b: Seq<A>)
    requires
        a.is_prefix_of(b),
    ensures
        forall|x: A| a.contains(x) ==> #[trigger] b.contains(x),
{
    assert forall|x: A| a.contains(x) implies #[trigger] b.contains(x) by {
        let i = choose|i: int| 0 <= i < a.len() && a[i] == x;
        assert(b[i] == x);
    }
}

/// When the prefixes of `c` squeeze `b` in between `a` and `c`, and `a` is
/// `c`, then `b` is `a` too.
pub proof fn lemma_prefix_squeeze<A>(a: Seq<A>, b: Seq<A>, c: Seq<A>)
    requires
        a.is_prefix_of(b),
        b.is_prefix_of(c),
        a == c,
    ensures
        b == a,
{
    assert(b =~= a) by {
        assert forall|i: int| 0 <= i < b.len() implies b[i] == a[i] by {
            assert(b[i] == c[i]);
        }
    }
}

/// Whether touching `t` pools it: it was not touched before, and fewer
/// strings than the pool holds have been touched.
pub open spec fn touches(seen: Seq<Seq<char>>, t: Seq<char>) -> bool {
    !seen.contains(t) && seen.len() < STRING_POOL_CAPACITY
}

/// A preparation's string side as the contracts see it: the producer's
/// string pool and its recency order, the strings touched and the patch.
pub ghost struct StringsPrep {
    pub pool: Map<u32, Seq<char>>,
    pub recency: Seq<u32>,
    pub seen: Seq<Seq<char>>,
    pub patch: Seq<(u32, Seq<char>)>,
}

/// A preparation's path side as the contracts see it: the producer's path
/// pool and its recency order, the paths touched and the patch.
pub ghost struct PathsPrep {
    pub pool: Map<u32, Seq<SegmentView>>,
    pub recency: Seq<u32>,
    pub seen: Seq<Seq<SegmentView>>,
    pub patch: Seq<(u32, Seq<SegmentView>)>,
}

/// The string side after touching `t`: a string not touched before, while
/// fewer strings than the pool holds have been touched, is pooled and, when
/// new to the pool, defined in the patch.
pub open spec fn prep_text(st: StringsPrep, t: Seq<char>) -> StringsPrep {
    if touches(st.seen, t) {
        let o = insert_outcome(st.pool, st.recency, STRING_POOL_CAPACITY as nat, t);
        StringsPrep { pool: o.1, recency: o.2, seen: st.seen.push(t), patch: patch_after(st.patch, o.0, t) }
    } else {
        st
    }
}

/// The string side after touching the map keys and text strings of `v` in
/// the order the encoding writes them.
pub open spec fn prep_value(st: StringsPrep, v: ValueView) -> StringsPrep
    decreases v,
{
    match v {
        ValueView::TStr(t) => prep_text(st, t),
        ValueView::Array(items) => prep_items(st, items),
        ValueView::Mapping(es) => prep_entries(st, es),
        _ => st,
    }
}

/// The string side after touching the items in order.
pub open spec fn prep_items(st: StringsPrep, items: Seq<ValueView>) -> StringsPrep
    decreases items,
{
    if items.len() == 0 {
        st
    } else {
        prep_value(prep_items(st, items.drop_last()), items.last())
    }
}

/// The string side after touching the entries in order, each key before
/// its value.
pub open spec fn prep_entries(st: StringsPrep, es: Seq<(Seq<char>, ValueView)>) -> StringsPrep
    decreases es,
{
    if es.len() == 0 {
        st
    } else {
        let before = prep_entries(st, es.drop_last());
        prep_value(prep_text(before, es.last().0), es.last().1)
    }
}

/// The path side after touching `p`: a path not touched before is pooled
/// and, when new to the pool, defined in the patch.
pub open spec fn prep_path(st: PathsPrep, p: Seq<SegmentView>) -> PathsPrep {
    if !st.seen.contains(p) {
        let o = insert_outcome(st.pool, st.recency, PATH_POOL_CAPACITY as nat, p);
        PathsPrep { pool: o.1, recency: o.2, seen: st.seen.push(p), patch: patch_after(st.patch, o.0, p) }
    } else {
        st
    }
}

/// Whether touching `p` succeeds, with the string pool `strings`: a path
/// touched before always does; a new one while fewer paths than the pool
/// holds have been touched, within the limits of a definition, and, unless
/// already pooled, with its definition within the limit of the patch.
pub open spec fn path_touch_ok(st: PathsPrep, p: Seq<SegmentView>, strings: Map<u32, Seq<char>>) -> bool {
    ||| st.seen.contains(p)
    ||| {
        &&& st.seen.len() < PATH_POOL_CAPACITY
        &&& path_valid(p)
        &&& ((exists|k: u32| st.pool.contains_key(k) && st.pool[k] == p) || definitions_len(
            st.patch,
            strings,
        ) + crate::message::packed::frame::enc_path(p, strings).len() <= PATH_PATCH_BYTES_LIMIT)
    }
}

/// Whether each of `seen` is a value of the pool `m`.
pub open spec fn all_pooled(m: Map<u32, Seq<char>>, seen: Seq<Seq<char>>) -> bool {
    forall|t: Seq<char>|
        #[trigger] seen.contains(t) ==> exists|k: u32| m.contains_key(k) && m[k] == t
}

/// Whether `s` is among `seen`.
fn contains_text(seen: &Vec<String>, s: &String) -> (b: bool)
    ensures
        b == texts(seen@).contains(s@),
{
    let mut i: usize = 0;
    while i < seen.len()
        invariant
            i <= seen@.len(),
            forall|j: int| 0 <= j < i ==> seen@[j]@ != s@,
        decreases seen@.len() - i,
    {
        if seen[i] == *s {
            proof {
                assert(texts(seen@)[i as int] == s@);
            }
            return true;
        }
        i += 1;
    }
    proof {
        if texts(seen@).contains(s@) {
            let j = choose|j: int| 0 <= j < texts(seen@).len() && texts(seen@)[j] == s@;
            assert(seen@[j]@ == s@);
        }
    }
    false
}

/// The string side of a preparation under way.
pub struct StringPreparation {
    seen: Vec<String>,
    patch: Vec<(u32, String)>,
    keys: Ghost<Seq<u32>>,
    base: Ghost<Map<u32, Seq<char>>>,
}

impl StringPreparation {
    /// The strings touched so far.
    pub closed spec fn seen(&self) -> Seq<Seq<char>> {
        texts(self.seen@)
    }

    /// The patch so far.
    pub closed spec fn patch(&self) -> Seq<(u32, Seq<char>)> {
        string_patch_view(self.patch@)
    }

    /// The string pool before preparation.
    pub closed spec fn base(&self) -> Map<u32, Seq<char>> {
        self.base@
    }

    /// The string side, with the producer's pools in `state`.
    pub open spec fn prep(&self, state: &ProducerStateTxn) -> StringsPrep {
        StringsPrep {
            pool: state.strings(),
            recency: state.string_recency(),
            seen: self.seen(),
            patch: self.patch(),
        }
    }

    /// What preparation keeps, against the producer's pools.
    pub closed spec fn inv(&self, state: &ProducerStateTxn) -> bool {
        &&& state.wf()
        &&& touched(
            state.strings(),
            state.string_recency(),
            STRING_POOL_CAPACITY as nat,
            texts(self.seen@),
            self.keys@,
            self.base@,
            string_patch_view(self.patch@),
        )
        &&& self.patch@.len() <= self.seen@.len() <= STRING_POOL_CAPACITY
        &&& forall|i: int|
            0 <= i < self.patch@.len() ==> crate::value::key_bytes(#[trigger] self.patch@[i].1@).len()
                < 0x1_0000_0000_0000_0000
    }

    /// What the patch is, once preparation is done.
    pub proof fn lemma_patch(&self, state: &ProducerStateTxn)
        requires
            self.inv(state),
        ensures
            state.wf(),
            state.strings() == patched(self.base(), self.patch()),
            distinct_keys(self.patch()),
            self.patch().len() <= STRING_POOL_CAPACITY,
            forall|i: int|
                0 <= i < self.patch().len() ==> (#[trigger] self.patch()[i].0 as int)
                    < STRING_POOL_CAPACITY && crate::value::key_bytes(self.patch()[i].1).len()
                    < 0x1_0000_0000_0000_0000,
    {
        assert forall|i: int| 0 <= i < self.patch().len() implies (#[trigger] self.patch()[i].0 as int)
            < STRING_POOL_CAPACITY && crate::value::key_bytes(self.patch()[i].1).len()
            < 0x1_0000_0000_0000_0000 by {
            assert(self.keys@.contains(self.patch()[i].0));
            assert(self.patch()[i].1 == self.patch@[i].1@);
        }
    }

    /// Each string touched is pooled.
    pub proof fn lemma_all_pooled(&self, state: &ProducerStateTxn)
        requires
            self.inv(state),
        ensures
            all_pooled(state.strings(), self.seen()),
    {
        assert forall|t: Seq<char>| #[trigger] self.seen().contains(t) implies exists|k: u32|
            state.strings().contains_key(k) && state.strings()[k] == t by {
            let j = choose|j: int| 0 <= j < self.seen().len() && self.seen()[j] == t;
            assert(state.strings().contains_key(self.keys@[j]));
        }
    }

    /// Nothing touched yet.
    pub fn new(state: &ProducerStateTxn) -> (p: Self)
        requires
            state.wf(),
        ensures
            p.inv(state),
            p.base() == state.strings(),
            p.seen().len() == 0,
            p.seen() == Seq::<Seq<char>>::empty(),
            p.patch() == Seq::<(u32, Seq<char>)>::empty(),
    {
        proof {
            lemma_touched_start(state.strings(), state.string_recency(), STRING_POOL_CAPACITY as nat);
        }
        let p = StringPreparation {
            seen: Vec::new(),
            patch: Vec::new(),
            keys: Ghost(Seq::empty()),
            base: Ghost(state.strings()),
        };
        proof {
            assert(texts(p.seen@) =~= Seq::<Seq<char>>::empty());
            assert(string_patch_view(p.patch@) =~= Seq::<(u32, Seq<char>)>::empty());
        }
        p
    }

    /// The patch, taken out.
    pub fn into_patch(self) -> (v: Vec<(u32, String)>)
        ensures
            string_patch_view(v@) == self.patch(),
    {
        self.patch
    }

    /// Touches `s`: pools it unless it was touched before or the pool's
    /// capacity of strings has been touched already.
    pub fn touch(&mut self, s: &String, state: &mut ProducerStateTxn)
        requires
            old(self).inv(old(state)),
        ensures
            final(self).inv(final(state)),
            final(state).wf(),
            final(self).base() == old(self).base(),
            final(state).keeps_savepoints(old(state)),
            final(state).paths() == old(state).paths(),
            final(state).path_recency() == old(state).path_recency(),
            old(self).seen().is_prefix_of(final(self).seen()),
            final(self).prep(final(state)) == prep_text(old(self).prep(old(state)), s@),
            old(self).patch().is_prefix_of(final(self).patch()),
            all_pooled(final(state).strings(), final(self).seen()),
            if touches(old(self).seen(), s@) {
                exists|r: InsertResult|
                    insert_spec(
                        old(state).strings(),
                        old(state).string_recency(),
                        STRING_POOL_CAPACITY as nat,
                        s@,
                        r,
                        final(state).strings(),
                        final(state).string_recency(),
                    ) && #[trigger] patch_after(old(self).patch(), r, s@) == final(self).patch()
            } else {
                &&& *final(state) == *old(state)
                &&& final(self).patch() == old(self).patch()
            },
    {
        proof {
            self.lemma_all_pooled(state);
        }
        if contains_text(&self.seen, s) {
            return;
        }
        if self.seen.len() >= STRING_POOL_CAPACITY {
            return;
        }
        let ghost m = state.strings();
        let ghost rec = state.string_recency();
        proof {
            state.lemma_pools_valid();
        }
        let r = state.insert_string(s.clone());
        proof {
            lemma_insert_outcome(m, rec, STRING_POOL_CAPACITY as nat, s@, r, state.strings(), state.string_recency());
            state.lemma_pools_valid();
            lemma_touch(
                m,
                rec,
                STRING_POOL_CAPACITY as nat,
                texts(self.seen@),
                self.keys@,
                self.base@,
                string_patch_view(self.patch@),
                s@,
                r,
                state.strings(),
                state.string_recency(),
            );
        }
        let copy = s.clone();
        proof {
            assert(texts(self.seen@.push(copy)) =~= texts(self.seen@).push(s@));
        }
        self.seen.push(copy);
        match r {
            InsertResult::Existing { .. } => {},
            InsertResult::Inserted { key } | InsertResult::Replaced { key } => {
                let _len = s.as_str().as_bytes().len();
                let copy = s.clone();
                proof {
                    assert(string_patch_view(self.patch@.push((key, copy))) =~= string_patch_view(
                        self.patch@,
                    ).push((key, s@)));
                }
                self.patch.push((key, copy));
            },
        }
        proof {
            self.keys@ = self.keys@.push(result_key(r));
            assert(self.patch() == patch_after(old(self).patch(), r, s@));
            self.lemma_all_pooled(state);
        }
    }

    /// Touches the map keys and text strings of `v`, in the order the
    /// encoding writes them.
    pub fn touch_value(&mut self, v: &Value, state: &mut ProducerStateTxn)
        requires
            old(self).inv(old(state)),
        ensures
            final(self).inv(final(state)),
            final(state).wf(),
            final(self).base() == old(self).base(),
            final(state).keeps_savepoints(old(state)),
            final(state).paths() == old(state).paths(),
            final(state).path_recency() == old(state).path_recency(),
            old(self).seen().is_prefix_of(final(self).seen()),
            final(self).prep(final(state)) == prep_value(old(self).prep(old(state)), v@),
            old(self).patch().is_prefix_of(final(self).patch()),
            all_pooled(final(state).strings(), final(self).seen()),
            final(self).seen() == old(self).seen() ==> *final(state) == *old(state)
                && final(self).patch() == old(self).patch(),
        decreases v@,
    {
        proof {
            self.lemma_all_pooled(state);
        }
        match v.inner() {
            ValueInner::TStr { text } => {
                self.touch(text, state);
            },
            ValueInner::Array { items } => {
                let ghost views = items_view(items@);
                let mut i: usize = 0;
                while i < items.len()
                    invariant
                        self.inv(state),
                        self.base() == old(self).base(),
                        state.keeps_savepoints(old(state)),
                        state.paths() == old(state).paths(),
                        state.path_recency() == old(state).path_recency(),
                        v@ == ValueView::Array(views),
                        views == items_view(items@),
                        i <= items@.len(),
                        old(self).seen().is_prefix_of(self.seen()),
                        self.prep(state) == prep_items(old(self).prep(old(state)), views.take(i as int)),
                        old(self).patch().is_prefix_of(self.patch()),
                        self.seen() == old(self).seen() ==> *state == *old(state) && self.patch()
                            == old(self).patch(),
                    decreases items@.len() - i,
                {
                    proof {
                        assert(views[i as int] == items@[i as int]@);
                        assert(decreases_to!(v@ => v@->Array_0));
                        assert(decreases_to!(views => views[i as int]));
                    }
                    let ghost before = *state;
                    let ghost seen0 = self.seen();
                    let ghost patch0 = self.patch();
                    self.touch_value(&items[i], state);
                    proof {
                        ProducerStateTxn::lemma_keeps_trans(old(state), &before, state);
                        lemma_prefix_trans(old(self).seen(), seen0, self.seen());
                        lemma_prefix_trans(old(self).patch(), patch0, self.patch());
                        assert(views.take(i + 1).drop_last() =~= views.take(i as int));
                        if self.seen() == old(self).seen() {
                            lemma_prefix_squeeze(old(self).seen(), seen0, self.seen());
                        }
                    }
                    i += 1;
                }
                proof {
                    assert(views.take(i as int) =~= views);
                }
            },
            ValueInner::Mapping { entries } => {
                let ghost views = pairs_view(entries@);
                let mut i: usize = 0;
                while i < entries.len()
                    invariant
                        self.inv(state),
                        self.base() == old(self).base(),
                        state.keeps_savepoints(old(state)),
                        state.paths() == old(state).paths(),
                        state.path_recency() == old(state).path_recency(),
                        v@ == ValueView::Mapping(views),
                        views == pairs_view(entries@),
                        i <= entries@.len(),
                        old(self).seen().is_prefix_of(self.seen()),
                        self.prep(state) == prep_entries(old(self).prep(old(state)), views.take(i as int)),
                        old(self).patch().is_prefix_of(self.patch()),
                        self.seen() == old(self).seen() ==> *state == *old(state) && self.patch()
                            == old(self).patch(),
                    decreases entries@.len() - i,
                {
                    proof {
                        assert(views[i as int] == (entries@[i as int].0@, entries@[i as int].1@));
                        assert(decreases_to!(v@ => v@->Mapping_0));
                        assert(decreases_to!(views => views[i as int]));
                        assert(decreases_to!(views[i as int] => views[i as int].1));
                    }
                    let ghost before = *state;
                    let ghost seen0 = self.seen();
                    let ghost patch0 = self.patch();
                    self.touch(&entries[i].0, state);
                    let ghost mid = *state;
                    let ghost seen1 = self.seen();
                    let ghost patch1 = self.patch();
                    self.touch_value(&entries[i].1, state);
                    proof {
                        lemma_prefix_trans(seen0, seen1, self.seen());
                        lemma_prefix_trans(old(self).seen(), seen0, self.seen());
                        lemma_prefix_trans(patch0, patch1, self.patch());
                        lemma_prefix_trans(old(self).patch(), patch0, self.patch());
                        ProducerStateTxn::lemma_keeps_trans(&before, &mid, state);
                        ProducerStateTxn::lemma_keeps_trans(old(state), &before, state);
                        assert(views.take(i + 1).drop_last() =~= views.take(i as int));
                        if self.seen() == old(self).seen() {
                            lemma_prefix_squeeze(old(self).seen(), seen0, self.seen());
                            lemma_prefix_squeeze(seen0, seen1, self.seen());
                        }
                    }
                    i += 1;
                }
                proof {
                    assert(views.take(i as int) =~= views);
                }
            },
            _ => {},
        }
        proof {
            self.lemma_all_pooled(state);
        }
    }
}

/// The total byte length of a path's keys.
pub open spec fn key_bytes_total(segs: Seq<SegmentView>) -> nat
    decreases segs.len(),
{
    if segs.len() == 0 {
        0
    } else {
        key_bytes_total(segs.drop_last()) + match segs.last() {
            SegmentView::Key(k) => crate::value::key_bytes(k).len(),
            SegmentView::Index(_) => 0,
        }
    }
}

/// A path that a message can define: at most 256 segments, at most 64 KiB
/// of keys, and indices whose tagged encoding fits in 64 bits.
pub open spec fn path_valid(p: Seq<SegmentView>) -> bool {
    &&& p.len() <= PATH_SEGMENTS_LIMIT
    &&& key_bytes_total(p) <= PATH_KEY_BYTES_LIMIT
    &&& forall|i: int|
        0 <= i < p.len() ==> (#[trigger] p[i] matches SegmentView::Index(x) ==> x
            <= 0x3FFF_FFFF_FFFF_FFFF && x <= usize::MAX)
}

/// The length of a path's definition with each key written out.
pub open spec fn literal_path_len(p: Seq<SegmentView>) -> nat {
    crate::message::packed::frame::enc_path(p, Map::empty()).len()
}

/// No path definition is longer than the one with each key written out.
pub proof fn lemma_literal_path_longest(p: Seq<SegmentView>, strings: Map<u32, Seq<char>>)
    ensures
        crate::message::packed::frame::enc_path(p, strings).len() <= literal_path_len(p),
{
    lemma_literal_segments_longest(p, strings);
}

/// No segments are longer than with each key written out.
proof fn lemma_literal_segments_longest(segs: Seq<SegmentView>, strings: Map<u32, Seq<char>>)
    ensures
        crate::message::packed::frame::enc_segments(segs, strings).len()
            <= crate::message::packed::frame::enc_segments(segs, Map::empty()).len(),
    decreases segs.len(),
{
    if segs.len() > 0 {
        lemma_literal_segments_longest(segs.drop_last(), strings);
        match segs.last() {
            SegmentView::Key(k) => {
                assert(!(exists|x: u32| Map::<u32, Seq<char>>::empty().contains_key(x)
                    && Map::<u32, Seq<char>>::empty()[x] == k));
            },
            SegmentView::Index(_) => {},
        }
    }
}

/// Checks the limits of a path definition; the error is `InvalidData`.
pub fn validate_path(path: &Path) -> (r: Result<()>)
    ensures
        r is Ok <==> path_valid(path@),
        r matches Err(e) ==> e.spec_kind() == ErrorKind::InvalidData,
{
    let segments = path.segments();
    let ghost segs = path@;
    if segments.len() > PATH_SEGMENTS_LIMIT {
        proof {
            assert(segments@.map_values(|x: PathSegment| x@).len() == segments@.len());
        }
        return Err(Error::new(ErrorKind::InvalidData, "too many path segments"));
    }
    let mut remaining: usize = PATH_KEY_BYTES_LIMIT;
    let mut i: usize = 0;
    proof {
        assert(segs.take(0) =~= Seq::<SegmentView>::empty());
    }
    while i < segments.len()
        invariant
            segs == path@,
            segments@.map_values(|x: PathSegment| x@) == segs,
            i <= segments@.len(),
            key_bytes_total(segs.take(i as int)) + remaining == PATH_KEY_BYTES_LIMIT,
            forall|j: int|
                0 <= j < i ==> (#[trigger] segs[j] matches SegmentView::Index(x) ==> x
                    <= 0x3FFF_FFFF_FFFF_FFFF && x <= usize::MAX),
        decreases segments@.len() - i,
    {
        proof {
            assert(segs.take(i + 1).drop_last() =~= segs.take(i as int));
            assert(segs[i as int] == segments@[i as int]@);
        }
        match &segments[i] {
            PathSegment::Key(k) => {
                let len = k.as_str().as_bytes().len();
                if len > remaining {
                    proof {
                        lemma_key_bytes_total_prefix(segs, i as int + 1);
                    }
                    return Err(Error::new(ErrorKind::InvalidData, "path keys too large"));
                }
                remaining = remaining - len;
            },
            PathSegment::Index(x) => {
                if *x as u64 > 0x3FFF_FFFF_FFFF_FFFF {
                    return Err(Error::new(ErrorKind::InvalidData, "path index too large"));
                }
            },
        }
        i += 1;
    }
    proof {
        assert(segs.take(i as int) =~= segs);
    }
    Ok(())
}

/// The key bytes of a prefix are no more than those of the whole path.
pub proof fn lemma_key_bytes_total_prefix(segs: Seq<SegmentView>, n: int)
    requires
        0 <= n <= segs.len(),
    ensures
        key_bytes_total(segs.take(n)) <= key_bytes_total(segs),
    decreases segs.len() - n,
{
    if n < segs.len() {
        lemma_key_bytes_total_prefix(segs, n + 1);
        assert(segs.take(n + 1).drop_last() =~= segs.take(n));
    } else {
        assert(segs.take(n) =~= segs);
    }
}

/// The total length of the definitions in a path patch.
pub open spec fn definitions_len(pp: Seq<(u32, Seq<SegmentView>)>, strings: Map<u32, Seq<char>>) -> nat
    decreases pp.len(),
{
    if pp.len() == 0 {
        0
    } else {
        definitions_len(pp.drop_last(), strings) + crate::message::packed::frame::enc_path(
            pp.last().1,
            strings,
        ).len()
    }
}

/// Whether `p` is among `seen`.
fn contains_path(seen: &Vec<Path>, p: &Path) -> (b: bool)
    ensures
        b == path_views(seen@).contains(p@),
{
    let mut i: usize = 0;
    while i < seen.len()
        invariant
            i <= seen@.len(),
            forall|j: int| 0 <= j < i ==> seen@[j]@ != p@,
        decreases seen@.len() - i,
    {
        if seen[i].same(p) {
            proof {
                assert(path_views(seen@)[i as int] == p@);
            }
            return true;
        }
        i += 1;
    }
    proof {
        if path_views(seen@).contains(p@) {
            let j = choose|j: int| 0 <= j < path_views(seen@).len() && path_views(seen@)[j] == p@;
            assert(seen@[j]@ == p@);
        }
    }
    false
}

/// The path side of a preparation under way.
pub struct PathPreparation {
    seen: Vec<Path>,
    patch: Vec<(u32, Path)>,
    keys: Ghost<Seq<u32>>,
    base: Ghost<Map<u32, Seq<SegmentView>>>,
    definition_bytes: usize,
}

impl PathPreparation {
    /// The paths touched so far.
    pub closed spec fn seen(&self) -> Seq<Seq<SegmentView>> {
        path_views(self.seen@)
    }

    /// The patch so far.
    pub closed spec fn patch(&self) -> Seq<(u32, Seq<SegmentView>)> {
        path_patch_view(self.patch@)
    }

    /// The path pool before preparation.
    pub closed spec fn base(&self) -> Map<u32, Seq<SegmentView>> {
        self.base@
    }

    /// The bytes of the path definitions so far.
    pub closed spec fn definition_bytes(&self) -> nat {
        self.definition_bytes as nat
    }

    /// The path side, with the producer's pools in `state`.
    pub open spec fn prep(&self, state: &ProducerStateTxn) -> PathsPrep {
        PathsPrep {
            pool: state.paths(),
            recency: state.path_recency(),
            seen: self.seen(),
            patch: self.patch(),
        }
    }

    /// What preparation keeps, against the producer's pools.
    pub closed spec fn inv(&self, state: &ProducerStateTxn) -> bool {
        &&& state.wf()
        &&& touched(
            state.paths(),
            state.path_recency(),
            PATH_POOL_CAPACITY as nat,
            path_views(self.seen@),
            self.keys@,
            self.base@,
            path_patch_view(self.patch@),
        )
        &&& self.patch@.len() <= self.seen@.len() <= PATH_POOL_CAPACITY
        &&& forall|i: int| 0 <= i < self.patch@.len() ==> path_valid(#[trigger] self.patch@[i].1@)
        &&& forall|i: int| 0 <= i < self.seen@.len() ==> path_valid(#[trigger] self.seen@[i]@)
        &&& self.definition_bytes == definitions_len(path_patch_view(self.patch@), state.strings())
        &&& self.definition_bytes <= PATH_PATCH_BYTES_LIMIT
    }

    /// What the patch is, once preparation is done, and where the touched
    /// paths are.
    pub proof fn lemma_patch(&self, state: &ProducerStateTxn)
        requires
            self.inv(state),
        ensures
            state.wf(),
            state.paths() == patched(self.base(), self.patch()),
            distinct_keys(self.patch()),
            self.patch().len() <= PATH_POOL_CAPACITY,
            forall|i: int|
                0 <= i < self.patch().len() ==> (#[trigger] self.patch()[i].0 as int)
                    < PATH_POOL_CAPACITY && path_valid(self.patch()[i].1),
            definitions_len(self.patch(), state.strings()) <= PATH_PATCH_BYTES_LIMIT,
            forall|p: Seq<SegmentView>|
                #[trigger] self.seen().contains(p) ==> exists|k: u32|
                    state.paths().contains_key(k) && state.paths()[k] == p,
    {
        assert forall|i: int| 0 <= i < self.patch().len() implies (#[trigger] self.patch()[i].0 as int)
            < PATH_POOL_CAPACITY && path_valid(self.patch()[i].1) by {
            assert(self.keys@.contains(self.patch()[i].0));
            assert(self.patch()[i].1 == self.patch@[i].1@);
        }
        assert forall|p: Seq<SegmentView>| #[trigger] self.seen().contains(p) implies exists|k: u32|
            state.paths().contains_key(k) && state.paths()[k] == p by {
            let j = choose|j: int| 0 <= j < self.seen().len() && self.seen()[j] == p;
            assert(state.paths().contains_key(self.keys@[j]));
        }
    }

    /// Nothing touched yet.
    pub fn new(state: &ProducerStateTxn) -> (p: Self)
        requires
            state.wf(),
        ensures
            p.inv(state),
            p.base() == state.paths(),
            p.seen().len() == 0,
            p.definition_bytes() == 0,
            p.seen() == Seq::<Seq<SegmentView>>::empty(),
            p.patch() == Seq::<(u32, Seq<SegmentView>)>::empty(),
    {
        proof {
            lemma_touched_start(state.paths(), state.path_recency(), PATH_POOL_CAPACITY as nat);
        }
        let p = PathPreparation {
            seen: Vec::new(),
            patch: Vec::new(),
            keys: Ghost(Seq::empty()),
            base: Ghost(state.paths()),
            definition_bytes: 0,
        };
        proof {
            assert(path_views(p.seen@) =~= Seq::<Seq<SegmentView>>::empty());
            assert(path_patch_view(p.patch@) =~= Seq::<(u32, Seq<SegmentView>)>::empty());
        }
        p
    }

    /// The patch, taken out.
    pub fn into_patch(self) -> (v: Vec<(u32, Path)>)
        ensures
            path_patch_view(v@) == self.patch(),
            forall|i: int| 0 <= i < v@.len() ==> #[trigger] v@[i].1@ == self.patch()[i].1,
    {
        self.patch
    }

    /// Touches `path`: pools it unless it was touched before. Fails when the
    /// message touches more paths than the pool holds, when the path is
    /// beyond the limits of a definition, or when the definitions grow
    /// beyond their limit.
    pub fn touch(&mut self, path: &Path, state: &mut ProducerStateTxn) -> (r: Result<()>)
        requires
            old(self).inv(old(state)),
        ensures
            final(self).inv(final(state)),
            final(state).wf(),
            final(self).base() == old(self).base(),
            final(state).keeps_savepoints(old(state)),
            final(state).strings() == old(state).strings(),
            final(state).string_recency() == old(state).string_recency(),
            r is Ok ==> final(self).seen().contains(path@),
            old(self).seen().is_prefix_of(final(self).seen()),
            r matches Err(e) ==> e.spec_kind() == ErrorKind::InvalidData,
            !path_valid(path@) ==> r is Err,
            path_valid(path@) && (old(self).seen().contains(path@) || (old(self).seen().len()
                < PATH_POOL_CAPACITY && old(self).definition_bytes() + literal_path_len(path@)
                <= PATH_PATCH_BYTES_LIMIT)) ==> r is Ok,
            final(self).seen().len() <= old(self).seen().len() + 1,
            final(self).definition_bytes() <= old(self).definition_bytes() + literal_path_len(path@),
            r is Ok ==> final(self).prep(final(state)) == prep_path(old(self).prep(old(state)), path@),
            r is Ok <==> path_touch_ok(old(self).prep(old(state)), path@, old(state).strings()),
            r is Err ==> *final(state) == *old(state) && final(self).prep(final(state)) == old(
                self,
            ).prep(old(state)) && final(self).definition_bytes() == old(self).definition_bytes(),
    {
        if contains_path(&self.seen, path) {
            proof {
                let j = choose|j: int| 0 <= j < self.seen().len() && self.seen()[j] == path@;
                assert(path_valid(self.seen@[j]@));
            }
            return Ok(());
        }
        if self.seen.len() >= PATH_POOL_CAPACITY {
            return Err(Error::new(ErrorKind::InvalidData, "too many distinct paths"));
        }
        validate_path(path)?;
        let ghost m = state.paths();
        let ghost rec = state.path_recency();
        let ghost strings = state.strings();
        let pooled = state.get_path_key(path);
        let is_new = pooled.is_none();
        let mut added: usize = 0;
        if is_new {
            let mut scratch: Vec<u8> = Vec::new();
            crate::message::packed::encoder::pack_path(&mut scratch, path, state);
            added = scratch.len();
            proof {
                lemma_literal_path_longest(path@, state.strings());
                assert(scratch@ =~= crate::message::packed::frame::enc_path(path@, strings));
                assert(self.definition_bytes() == definitions_len(self.patch(), strings));
            }
            if added > PATH_PATCH_BYTES_LIMIT - self.definition_bytes {
                proof {
                    assert(!path_touch_ok(old(self).prep(old(state)), path@, strings));
                }
                return Err(Error::new(ErrorKind::InvalidData, "path patch too large"));
            }
            proof {
                assert(path_touch_ok(old(self).prep(old(state)), path@, strings));
            }
        } else {
            proof {
                let k = pooled->Some_0;
                assert(state.paths().contains_key(k) && state.paths()[k] == path@);
                let st = old(self).prep(old(state));
                assert(st.pool.contains_key(k) && st.pool[k] == path@);
                assert(st.seen.len() < PATH_POOL_CAPACITY);
                assert(path_valid(path@));
                assert(path_touch_ok(old(self).prep(old(state)), path@, strings));
            }
        }
        proof {
            state.lemma_pools_valid();
        }
        let r = state.insert_path(path.duplicate());
        proof {
            lemma_insert_outcome(m, rec, PATH_POOL_CAPACITY as nat, path@, r, state.paths(), state.path_recency());
            state.lemma_pools_valid();
            lemma_touch(
                m,
                rec,
                PATH_POOL_CAPACITY as nat,
                path_views(self.seen@),
                self.keys@,
                self.base@,
                path_patch_view(self.patch@),
                path@,
                r,
                state.paths(),
                state.path_recency(),
            );
        }
        let copy = path.duplicate();
        proof {
            assert(path_views(self.seen@.push(copy)) =~= path_views(self.seen@).push(path@));
        }
        self.seen.push(copy);
        match r {
            InsertResult::Existing { .. } => {},
            InsertResult::Inserted { key } | InsertResult::Replaced { key } => {
                let copy = path.duplicate();
                proof {
                    assert(path_patch_view(self.patch@.push((key, copy))) =~= path_patch_view(
                        self.patch@,
                    ).push((key, path@)));
                    assert(path_patch_view(self.patch@.push((key, copy))).drop_last()
                        =~= path_patch_view(self.patch@));
                }
                self.patch.push((key, copy));
                self.definition_bytes = self.definition_bytes + added;
            },
        }
        proof {
            self.keys@ = self.keys@.push(result_key(r));
            assert(path_views(self.seen@)[path_views(self.seen@).len() - 1] == path@);
            assert(self.patch() == patch_after(old(self).patch(), r, path@));
        }
        Ok(())
    }
}

} // verus!
