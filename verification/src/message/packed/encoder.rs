//! Writing packed messages.

use vstd::prelude::*;

use super::format::{enc_entries, enc_items, enc_key, enc_tstr, enc_value, fits, pooled_key};
use super::frame::{
    action_paths_pooled, action_value, actions_ready, enc_action, enc_actions, enc_message,
    enc_metadata, enc_path, enc_path_entries, enc_path_ref, enc_segment, enc_segments,
    enc_string_entries, prepared,
};
use crate::error::{Error, ErrorKind, Result};
use crate::message::packed::decoder::actions_view;
use crate::patch::{Action, ActionView};
use crate::protocol::consts::{
    ACTION_ADD, ACTION_COPY, ACTION_DELETE, ACTION_REPLACE, ACTION_SNAPSHOT, DEFAULT_ACTIONS_LIMIT,
    METADATA_PATHS, METADATA_PROTOCOL, METADATA_STRINGS,
};
use crate::protocol::preparation::{
    literal_path_len, path_touch_ok, path_valid, prep_path, prep_value, PathPreparation, PathsPrep,
    StringPreparation, StringsPrep,
};
use crate::state::{PATH_PATCH_BYTES_LIMIT, PATH_POOL_CAPACITY};
use crate::state::consumer_state::{patched, path_patch_view, string_patch_view};
use crate::patch::{Path, PathSegment, SegmentView};
use crate::protocol::layout::path_key_ref_key;
use crate::le::{append_bytes, push_le};
use crate::protocol::consts::{
    FLOAT_BITS_64, FLOAT_FALSE, FLOAT_NULL, FLOAT_TRUE, TAG_ARRAY, TAG_BSTR, TAG_FLOAT, TAG_MAP,
    TAG_NEGINT, TAG_POSINT, TAG_TSTR, TAG_TSTR_REF,
};
use crate::protocol::layout::{pack_head, tstr_ref_key};
use crate::protocol::varuint::pack_varuint;
use crate::state::pool::valid_map;
use crate::state::producer_state::ProducerStateTxn;
use crate::state::STRING_POOL_CAPACITY;
use crate::value::{canonical, items_view, key_bytes, pairs_view, Value, ValueInner, ValueView};

verus! {

/// A key pooled under `k` is found under `k`, and only there.
pub proof fn lemma_pooled_key<V>(pool: Map<u32, V>, s: V, k: Option<u32>, cap: nat)
    requires
        valid_map(pool, cap),
        match k {
            Some(x) => pool.contains_key(x) && pool[x] == s,
            None => forall|x: u32| #[trigger] pool.contains_key(x) ==> pool[x] != s,
        },
    ensures
        pooled_key(pool, s) == k,
{
    if let Some(x) = k {
        let y = choose|y: u32| pool.contains_key(y) && pool[y] == s;
        assert(pool.contains_key(y) && pool[y] == s);
    }
}

/// The key under which the producer pools `s`, if it does.
pub fn string_key(state: &ProducerStateTxn, s: &String) -> (k: Option<u32>)
    requires
        state.wf(),
    ensures
        k == pooled_key(state.strings(), s@),
{
    let k = state.get_string_key(s);
    proof {
        state.lemma_pools_valid();
        lemma_pooled_key(state.strings(), s@, k, STRING_POOL_CAPACITY as nat);
    }
    k
}

/// Appends the encoding of the text string `s`.
fn pack_tstr(out: &mut Vec<u8>, s: &String, state: &ProducerStateTxn)
    requires
        state.wf(),
    ensures
        final(out)@ == old(out)@ + enc_tstr(s@, state.strings()),
{
    let bytes = s.as_str().as_bytes();
    match tstr_ref_key(bytes.len(), string_key(state, s)) {
        Some(k) => {
            pack_head(out, TAG_TSTR_REF, k as u64);
        },
        None => {
            pack_head(out, TAG_TSTR, bytes.len() as u64);
            append_bytes(out, bytes);
            proof {
                assert(final(out)@ =~= old(out)@ + enc_tstr(s@, state.strings()));
            }
        },
    }
}

/// Appends the encoding of the map key `s`.
fn pack_key(out: &mut Vec<u8>, s: &String, state: &ProducerStateTxn)
    requires
        state.wf(),
        key_bytes(s@).len() < 0x4000_0000_0000_0000,
    ensures
        final(out)@ == old(out)@ + enc_key(s@, state.strings()),
{
    let bytes = s.as_str().as_bytes();
    match string_key(state, s) {
        Some(k) => {
            pack_varuint(out, (k as u64) * 4);
        },
        None => {
            pack_varuint(out, (bytes.len() as u64) * 4 + 1);
            append_bytes(out, bytes);
            proof {
                assert(final(out)@ =~= old(out)@ + enc_key(s@, state.strings()));
            }
        },
    }
}

/// Appends the encoding of `value`.
pub fn pack_value(out: &mut Vec<u8>, value: &Value, state: &ProducerStateTxn)
    requires
        state.wf(),
        fits(value@),
    ensures
        final(out)@ == old(out)@ + enc_value(value@, state.strings()),
        canonical(value@),
    decreases value@,
{
    let ghost pool = state.strings();
    match value.inner() {
        ValueInner::PosInt { value: n } => {
            pack_head(out, TAG_POSINT, *n);
        },
        ValueInner::NegInt { value: n } => {
            pack_head(out, TAG_NEGINT, *n);
        },
        ValueInner::Null => {
            out.push(TAG_FLOAT * 16 + FLOAT_NULL);
        },
        ValueInner::Bool { flag } => {
            out.push(
                TAG_FLOAT * 16 + if *flag {
                    FLOAT_TRUE
                } else {
                    FLOAT_FALSE
                },
            );
        },
        ValueInner::Float { bits } => {
            out.push(TAG_FLOAT * 16 + FLOAT_BITS_64);
            push_le(out, *bits, 8);
            proof {
                assert(final(out)@ =~= old(out)@ + enc_value(value@, pool));
            }
        },
        ValueInner::BStr { bytes } => {
            pack_head(out, TAG_BSTR, bytes.len() as u64);
            append_bytes(out, bytes.as_slice());
            proof {
                assert(final(out)@ =~= old(out)@ + enc_value(value@, pool));
            }
        },
        ValueInner::TStr { text } => {
            pack_tstr(out, text, state);
        },
        ValueInner::Array { items } => {
            pack_head(out, TAG_ARRAY, items.len() as u64);
            let ghost head = out@;
            let ghost views = items_view(items@);
            let mut i: usize = 0;
            while i < items.len()
                invariant
                    pool == state.strings(),
                    state.wf(),
                    value@ == ValueView::Array(views),
                    views == items_view(items@),
                    fits(value@),
                    i <= items@.len(),
                    out@ == head + enc_items(views.take(i as int), pool),
                decreases items@.len() - i,
            {
                proof {
                    assert(views[i as int] == items@[i as int]@);
                    assert(decreases_to!(value@ => value@->Array_0));
                    assert(decreases_to!(views => views[i as int]));
                    assert(fits(ValueView::Array(views)));
                    assert(fits(views[i as int]));
                    assert(views.take(i + 1).drop_last() =~= views.take(i as int));
                }
                pack_value(out, &items[i], state);
                i += 1;
            }
            proof {
                assert(views.take(i as int) =~= views);
            }
        },
        ValueInner::Mapping { entries } => {
            pack_head(out, TAG_MAP, entries.len() as u64);
            let ghost head = out@;
            let ghost views = pairs_view(entries@);
            let mut i: usize = 0;
            while i < entries.len()
                invariant
                    pool == state.strings(),
                    state.wf(),
                    value@ == ValueView::Mapping(views),
                    views == pairs_view(entries@),
                    fits(value@),
                    i <= entries@.len(),
                    out@ == head + enc_entries(views.take(i as int), pool),
                decreases entries@.len() - i,
            {
                proof {
                    assert(views[i as int] == (entries@[i as int].0@, entries@[i as int].1@));
                    assert(decreases_to!(value@ => value@->Mapping_0));
                    assert(decreases_to!(views => views[i as int]));
                    assert(decreases_to!(views[i as int] => views[i as int].1));
                    assert(fits(ValueView::Mapping(views)));
                    assert(key_bytes(views[i as int].0).len() < 0x4000_0000_0000_0000);
                    assert(fits(views[i as int].1));
                    assert(views.take(i + 1).drop_last() =~= views.take(i as int));
                }
                pack_key(out, &entries[i].0, state);
                pack_value(out, &entries[i].1, state);
                i += 1;
            }
            proof {
                assert(views.take(i as int) =~= views);
            }
        },
    }
}

/// Appends a path definition segment.
fn pack_segment(out: &mut Vec<u8>, seg: &PathSegment, state: &ProducerStateTxn)
    requires
        state.wf(),
        seg@ matches SegmentView::Key(k) ==> key_bytes(k).len() <= 0x1_0000,
        seg@ matches SegmentView::Index(x) ==> x <= 0x3FFF_FFFF_FFFF_FFFF,
    ensures
        final(out)@ == old(out)@ + enc_segment(seg@, state.strings()),
{
    match seg {
        PathSegment::Key(k) => {
            let bytes = k.as_str().as_bytes();
            match path_key_ref_key(bytes.len(), string_key(state, k)) {
                Some(x) => {
                    pack_varuint(out, (x as u64) * 4 + 2);
                },
                None => {
                    pack_varuint(out, (bytes.len() as u64) * 4);
                    append_bytes(out, bytes);
                    proof {
                        assert(final(out)@ =~= old(out)@ + enc_segment(seg@, state.strings()));
                    }
                },
            }
        },
        PathSegment::Index(x) => {
            pack_varuint(out, (*x as u64) * 4 + 1);
        },
    }
}

/// Appends a path definition: the number of segments, then the segments.
pub fn pack_path(out: &mut Vec<u8>, path: &Path, state: &ProducerStateTxn)
    requires
        state.wf(),
        crate::protocol::preparation::path_valid(path@),
    ensures
        final(out)@ == old(out)@ + enc_path(path@, state.strings()),
{
    let segments = path.segments();
    let ghost segs = path@;
    pack_varuint(out, segments.len() as u64);
    let ghost head = out@;
    let mut i: usize = 0;
    proof {
        assert(segments@.map_values(|x: PathSegment| x@).len() == segments@.len());
        assert(segs.take(0) =~= Seq::<SegmentView>::empty());
    }
    while i < segments.len()
        invariant
            state.wf(),
            segs == path@,
            segments@.map_values(|x: PathSegment| x@) == segs,
            crate::protocol::preparation::path_valid(segs),
            i <= segments@.len(),
            out@ == head + enc_segments(segs.take(i as int), state.strings()),
        decreases segments@.len() - i,
    {
        proof {
            assert(segs[i as int] == segments@[i as int]@);
            assert(segs.take(i + 1).drop_last() =~= segs.take(i as int));
            assert(segs.take(i + 1).last() == segs[i as int]);
            if let SegmentView::Key(k) = segs[i as int] {
                crate::protocol::preparation::lemma_key_bytes_total_prefix(segs, i + 1);
                crate::protocol::preparation::lemma_key_bytes_total_prefix(segs.take(i + 1), i as int);
                assert(segs.take(i + 1).take(i as int) =~= segs.take(i as int));
            }
        }
        pack_segment(out, &segments[i], state);
        i += 1;
    }
    proof {
        assert(segs.take(i as int) =~= segs);
    }
}

/// Appends the entries of a string pool patch.
fn pack_string_entries(out: &mut Vec<u8>, patch: &Vec<(u32, String)>)
    ensures
        final(out)@ == old(out)@ + enc_string_entries(string_patch_view(patch@)),
{
    let ghost view = string_patch_view(patch@);
    let ghost head = out@;
    let mut i: usize = 0;
    proof {
        assert(view.take(0) =~= Seq::<(u32, Seq<char>)>::empty());
    }
    while i < patch.len()
        invariant
            view == string_patch_view(patch@),
            i <= patch@.len(),
            out@ == head + enc_string_entries(view.take(i as int)),
        decreases patch@.len() - i,
    {
        proof {
            assert(view.take(i + 1).drop_last() =~= view.take(i as int));
            assert(view.take(i + 1).last() == view[i as int]);
        }
        let bytes = patch[i].1.as_str().as_bytes();
        pack_varuint(out, patch[i].0 as u64);
        pack_varuint(out, bytes.len() as u64);
        append_bytes(out, bytes);
        proof {
            assert(out@ =~= head + enc_string_entries(view.take(i + 1)));
        }
        i += 1;
    }
    proof {
        assert(view.take(i as int) =~= view);
    }
}

/// Appends the entries of a path pool patch.
fn pack_path_entries(out: &mut Vec<u8>, patch: &Vec<(u32, Path)>, state: &ProducerStateTxn)
    requires
        state.wf(),
        forall|i: int| 0 <= i < patch@.len() ==> path_valid(#[trigger] patch@[i].1@),
    ensures
        final(out)@ == old(out)@ + enc_path_entries(path_patch_view(patch@), state.strings()),
{
    let ghost view = path_patch_view(patch@);
    let ghost head = out@;
    let mut i: usize = 0;
    proof {
        assert(view.take(0) =~= Seq::<(u32, Seq<SegmentView>)>::empty());
    }
    while i < patch.len()
        invariant
            state.wf(),
            view == path_patch_view(patch@),
            forall|i: int| 0 <= i < patch@.len() ==> path_valid(#[trigger] patch@[i].1@),
            i <= patch@.len(),
            out@ == head + enc_path_entries(view.take(i as int), state.strings()),
        decreases patch@.len() - i,
    {
        proof {
            assert(view.take(i + 1).drop_last() =~= view.take(i as int));
            assert(view.take(i + 1).last() == view[i as int]);
            assert(path_valid(patch@[i as int].1@));
        }
        pack_varuint(out, patch[i].0 as u64);
        pack_path(out, &patch[i].1, state);
        proof {
            assert(out@ =~= head + enc_path_entries(view.take(i + 1), state.strings()));
        }
        i += 1;
    }
    proof {
        assert(view.take(i as int) =~= view);
    }
}

/// Appends a path by its pool key.
fn pack_path_ref(out: &mut Vec<u8>, path: &Path, state: &ProducerStateTxn) -> (r: Result<()>)
    requires
        state.wf(),
    ensures
        r is Ok ==> final(out)@ == old(out)@ + enc_path_ref(path@, state.paths()),
        pooled_key(state.paths(), path@) is Some ==> r is Ok,
        r matches Err(e) ==> e.spec_kind() == ErrorKind::Internal,
{
    let k = state.get_path_key(path);
    proof {
        state.lemma_pools_valid();
        lemma_pooled_key(state.paths(), path@, k, crate::state::PATH_POOL_CAPACITY as nat);
    }
    match k {
        Some(k) => {
            pack_varuint(out, k as u64);
            Ok(())
        },
        None => Err(Error::new(ErrorKind::Internal, "prepared path missing")),
    }
}

/// Appends an action.
fn pack_action(out: &mut Vec<u8>, action: &Action, state: &ProducerStateTxn) -> (r: Result<()>)
    requires
        state.wf(),
        match action_value(action@) {
            Some(v) => fits(v),
            None => true,
        },
    ensures
        r is Ok ==> final(out)@ == old(out)@ + enc_action(action@, state.strings(), state.paths()),
        r is Ok ==> match action_value(action@) {
            Some(v) => canonical(v),
            None => true,
        },
        action_paths_pooled(action@, state.paths()) ==> r is Ok,
        r matches Err(e) ==> e.spec_kind() == ErrorKind::Internal,
{
    let ghost start = out@;
    match action {
        Action::Snapshot { value } => {
            pack_varuint(out, ACTION_SNAPSHOT as u64);
            pack_value(out, value, state);
        },
        Action::Add { path, value } => {
            pack_varuint(out, ACTION_ADD as u64);
            pack_path_ref(out, path, state)?;
            pack_value(out, value, state);
        },
        Action::Replace { path, value } => {
            pack_varuint(out, ACTION_REPLACE as u64);
            pack_path_ref(out, path, state)?;
            pack_value(out, value, state);
        },
        Action::Delete { path } => {
            pack_varuint(out, ACTION_DELETE as u64);
            pack_path_ref(out, path, state)?;
        },
        Action::Copy { path, from } => {
            pack_varuint(out, ACTION_COPY as u64);
            pack_path_ref(out, path, state)?;
            pack_path_ref(out, from, state)?;
        },
    }
    proof {
        assert(out@ =~= start + enc_action(action@, state.strings(), state.paths()));
    }
    Ok(())
}

/// Writes the metadata: the protocol declaration where a version is
/// declared, then the pool patches that are not empty.
fn pack_metadata(
    declare: Option<u32>,
    string_patch: &Vec<(u32, String)>,
    path_patch: &Vec<(u32, Path)>,
    state: &ProducerStateTxn,
) -> (out: Vec<u8>)
    requires
        state.wf(),
        forall|i: int| 0 <= i < path_patch@.len() ==> path_valid(#[trigger] path_patch@[i].1@),
    ensures
        out@ == enc_metadata(
            declare,
            string_patch_view(string_patch@),
            path_patch_view(path_patch@),
            state.strings(),
        ),
{
    let mut out: Vec<u8> = Vec::new();
    let count: u64 = (if declare.is_some() {
        1u64
    } else {
        0u64
    }) + (if string_patch.len() > 0 {
        1u64
    } else {
        0u64
    }) + (if path_patch.len() > 0 {
        1u64
    } else {
        0u64
    });
    pack_varuint(&mut out, count);
    if let Some(version) = declare {
        pack_varuint(&mut out, METADATA_PROTOCOL);
        pack_varuint(&mut out, version as u64);
    }
    if string_patch.len() > 0 {
        pack_varuint(&mut out, METADATA_STRINGS);
        pack_varuint(&mut out, string_patch.len() as u64);
        pack_string_entries(&mut out, string_patch);
    }
    if path_patch.len() > 0 {
        pack_varuint(&mut out, METADATA_PATHS);
        pack_varuint(&mut out, path_patch.len() as u64);
        pack_path_entries(&mut out, path_patch, state);
    }
    proof {
        assert(out@ =~= enc_metadata(
            declare,
            string_patch_view(string_patch@),
            path_patch_view(path_patch@),
            state.strings(),
        ));
    }
    out
}

/// Whether the paths an action refers to are within the limits of a
/// definition.
pub open spec fn action_paths_valid(a: ActionView) -> bool {
    match a {
        ActionView::Snapshot(_) => true,
        ActionView::Add(p, _) => path_valid(p),
        ActionView::Replace(p, _) => path_valid(p),
        ActionView::Delete(p) => path_valid(p),
        ActionView::Copy(p, f) => path_valid(p) && path_valid(f),
    }
}

/// The number of paths an action refers to.
pub open spec fn action_path_count(a: ActionView) -> nat {
    match a {
        ActionView::Snapshot(_) => 0,
        ActionView::Copy(_, _) => 2,
        _ => 1,
    }
}

/// The definition lengths, each key written out, of the paths an action
/// refers to.
pub open spec fn action_literal_len(a: ActionView) -> nat {
    match a {
        ActionView::Snapshot(_) => 0,
        ActionView::Add(p, _) => literal_path_len(p),
        ActionView::Replace(p, _) => literal_path_len(p),
        ActionView::Delete(p) => literal_path_len(p),
        ActionView::Copy(p, f) => literal_path_len(p) + literal_path_len(f),
    }
}

/// The number of path references of the actions.
pub open spec fn path_count(acts: Seq<ActionView>) -> nat
    decreases acts.len(),
{
    if acts.len() == 0 {
        0
    } else {
        path_count(acts.drop_last()) + action_path_count(acts.last())
    }
}

/// The definition lengths, each key written out, of the path references of
/// the actions.
pub open spec fn literal_total(acts: Seq<ActionView>) -> nat
    decreases acts.len(),
{
    if acts.len() == 0 {
        0
    } else {
        literal_total(acts.drop_last()) + action_literal_len(acts.last())
    }
}

/// Actions that always pack: no more than a message holds, each path
/// within the limits of a definition, no more path references than the
/// path pool holds, and their definitions, each key written out, within
/// the limit of a message's path patch.
pub open spec fn packable(acts: Seq<ActionView>) -> bool {
    &&& acts.len() <= DEFAULT_ACTIONS_LIMIT
    &&& forall|i: int| 0 <= i < acts.len() ==> action_paths_valid(#[trigger] acts[i])
    &&& path_count(acts) <= PATH_POOL_CAPACITY
    &&& literal_total(acts) <= PATH_PATCH_BYTES_LIMIT
}

/// The path references of a prefix are no more than those of the whole.
pub proof fn lemma_totals_prefix(acts: Seq<ActionView>, n: int)
    requires
        0 <= n <= acts.len(),
    ensures
        path_count(acts.take(n)) <= path_count(acts),
        literal_total(acts.take(n)) <= literal_total(acts),
    decreases acts.len() - n,
{
    if n < acts.len() {
        lemma_totals_prefix(acts, n + 1);
        assert(acts.take(n + 1).drop_last() =~= acts.take(n));
    } else {
        assert(acts.take(n) =~= acts);
    }
}

/// The string side of a preparation after touching the values of the
/// actions in order.
pub open spec fn prep_actions(st: StringsPrep, acts: Seq<ActionView>) -> StringsPrep
    decreases acts.len(),
{
    if acts.len() == 0 {
        st
    } else {
        let before = prep_actions(st, acts.drop_last());
        match action_value(acts.last()) {
            Some(v) => prep_value(before, v),
            None => before,
        }
    }
}

/// The path side of a preparation after touching the paths of the actions
/// in order, a copy's destination before its source.
pub open spec fn prep_action_paths(st: PathsPrep, acts: Seq<ActionView>) -> PathsPrep
    decreases acts.len(),
{
    if acts.len() == 0 {
        st
    } else {
        let before = prep_action_paths(st, acts.drop_last());
        match acts.last() {
            ActionView::Add(p, _) => prep_path(before, p),
            ActionView::Replace(p, _) => prep_path(before, p),
            ActionView::Delete(p) => prep_path(before, p),
            ActionView::Copy(p, f) => prep_path(prep_path(before, p), f),
            ActionView::Snapshot(_) => before,
        }
    }
}

/// Whether the path side of a preparation touches the paths of the actions
/// in order without failing, with the string pool `strings`.
pub open spec fn action_paths_ok(st: PathsPrep, acts: Seq<ActionView>, strings: Map<u32, Seq<char>>) -> bool
    decreases acts.len(),
{
    if acts.len() == 0 {
        true
    } else {
        let before = prep_action_paths(st, acts.drop_last());
        &&& action_paths_ok(st, acts.drop_last(), strings)
        &&& match acts.last() {
            ActionView::Add(p, _) => path_touch_ok(before, p, strings),
            ActionView::Replace(p, _) => path_touch_ok(before, p, strings),
            ActionView::Delete(p) => path_touch_ok(before, p, strings),
            ActionView::Copy(p, f) => path_touch_ok(before, p, strings) && path_touch_ok(
                prep_path(before, p),
                f,
                strings,
            ),
            ActionView::Snapshot(_) => true,
        }
    }
}

/// What holds of the actions holds of each prefix.
pub proof fn lemma_action_paths_ok_prefix(
    st: PathsPrep,
    acts: Seq<ActionView>,
    strings: Map<u32, Seq<char>>,
    n: int,
)
    requires
        action_paths_ok(st, acts, strings),
        0 <= n <= acts.len(),
    ensures
        action_paths_ok(st, acts.take(n), strings),
    decreases acts.len() - n,
{
    if n == acts.len() {
        assert(acts.take(n) =~= acts);
    } else {
        lemma_action_paths_ok_prefix(st, acts, strings, n + 1);
        assert(acts.take(n + 1).drop_last() =~= acts.take(n));
    }
}

/// The string side of the preparation of a message of `acts` against the
/// string pool `pool` with the recency order `recency`.
pub open spec fn strings_prepared(
    acts: Seq<ActionView>,
    pool: Map<u32, Seq<char>>,
    recency: Seq<u32>,
) -> StringsPrep {
    prep_actions(StringsPrep { pool, recency, seen: Seq::empty(), patch: Seq::empty() }, acts)
}

/// The path side of the preparation of a message of `acts` against the path
/// pool `pool` with the recency order `recency`.
pub open spec fn paths_prepared(
    acts: Seq<ActionView>,
    pool: Map<u32, Seq<SegmentView>>,
    recency: Seq<u32>,
) -> PathsPrep {
    prep_action_paths(PathsPrep { pool, recency, seen: Seq::empty(), patch: Seq::empty() }, acts)
}

/// The bytes of a message of `acts`, declaring the protocol `declare` where
/// it is given, against the string pool `s0` and the path pool `p0` with
/// their recency orders: each string and path the message uses is touched
/// once in order, pooled where it is not, and defined in the metadata when
/// new to its pool.
pub open spec fn packing(
    declare: Option<u32>,
    acts: Seq<ActionView>,
    s0: Map<u32, Seq<char>>,
    sr0: Seq<u32>,
    p0: Map<u32, Seq<SegmentView>>,
    pr0: Seq<u32>,
) -> Seq<u8> {
    let sp = strings_prepared(acts, s0, sr0);
    let pp = paths_prepared(acts, p0, pr0);
    enc_message(declare, acts, sp.patch, pp.patch, sp.pool, pp.pool)
}

/// Whether a message of `acts` packs against the pools `(s0, p0)` with the
/// recency orders `(sr0, pr0)`: no more actions than a message holds, and
/// each path touched in turn, once the strings are prepared.
pub open spec fn packs(
    acts: Seq<ActionView>,
    s0: Map<u32, Seq<char>>,
    sr0: Seq<u32>,
    p0: Map<u32, Seq<SegmentView>>,
    pr0: Seq<u32>,
) -> bool {
    &&& acts.len() <= DEFAULT_ACTIONS_LIMIT
    &&& action_paths_ok(
        PathsPrep { pool: p0, recency: pr0, seen: Seq::empty(), patch: Seq::empty() },
        acts,
        strings_prepared(acts, s0, sr0).pool,
    )
}

/// A prefix of actions that always pack always packs too.
pub proof fn lemma_packable_take(acts: Seq<ActionView>, n: int)
    requires
        packable(acts),
        0 <= n <= acts.len(),
    ensures
        packable(acts.take(n)),
{
    lemma_totals_prefix(acts, n);
    assert forall|i: int| 0 <= i < acts.take(n).len() implies action_paths_valid(#[trigger] acts.take(n)[i]) by {
        assert(acts.take(n)[i] == acts[i]);
    }
}

/// Whether the values of the actions are within the encoding's limits.
pub open spec fn values_fit(acts: Seq<ActionView>) -> bool {
    forall|i: int|
        0 <= i < acts.len() ==> match action_value(#[trigger] acts[i]) {
            Some(v) => fits(v),
            None => true,
        }
}

/// Writes a message of `actions` against the producer's pools: the pools
/// are prepared first, then the metadata that defines the new entries and
/// the actions are written. On failure the pools are as they were.
#[verifier::spinoff_prover]
#[verifier::rlimit(60)]
pub fn encode_message(actions: &Vec<Action>, declare: Option<u32>, state: &mut ProducerStateTxn) -> (r: Result<
    Vec<u8>,
>)
    requires
        old(state).wf(),
        values_fit(actions_view(actions@)),
    ensures
        final(state).wf(),
        final(state).keeps_savepoints(old(state)),
        match r {
            Ok(b) => exists|sp: Seq<(u32, Seq<char>)>, pp: Seq<(u32, Seq<SegmentView>)>|
                prepared(
                    old(state).strings(),
                    old(state).paths(),
                    sp,
                    pp,
                    final(state).strings(),
                    final(state).paths(),
                ) && actions_ready(actions_view(actions@), final(state).paths()) && b@
                    == enc_message(
                    declare,
                    actions_view(actions@),
                    sp,
                    pp,
                    final(state).strings(),
                    final(state).paths(),
                ),
            Err(e) => {
                &&& e.spec_kind() == ErrorKind::InvalidData
                &&& final(state).strings() == old(state).strings()
                &&& final(state).paths() == old(state).paths()
                &&& final(state).string_recency() == old(state).string_recency()
                &&& final(state).path_recency() == old(state).path_recency()
            },
        },
        actions@.len() > DEFAULT_ACTIONS_LIMIT ==> r is Err,
        (exists|i: int|
            0 <= i < actions@.len() && match #[trigger] actions@[i]@ {
                ActionView::Add(p, _) => !path_valid(p),
                ActionView::Replace(p, _) => !path_valid(p),
                ActionView::Delete(p) => !path_valid(p),
                ActionView::Copy(p, f) => !path_valid(p) || !path_valid(f),
                ActionView::Snapshot(_) => false,
            }) ==> r is Err,
        actions@.len() <= DEFAULT_ACTIONS_LIMIT && (forall|i: int|
            0 <= i < actions@.len() ==> #[trigger] actions@[i]@ is Snapshot) ==> r is Ok,
        packable(actions_view(actions@)) ==> r is Ok,
        r is Ok <==> packs(
            actions_view(actions@),
            old(state).strings(),
            old(state).string_recency(),
            old(state).paths(),
            old(state).path_recency(),
        ),
        r matches Ok(b) ==> {
            let acts = actions_view(actions@);
            let sp = strings_prepared(acts, old(state).strings(), old(state).string_recency());
            let pp = paths_prepared(acts, old(state).paths(), old(state).path_recency());
            &&& b@ == packing(
                declare,
                acts,
                old(state).strings(),
                old(state).string_recency(),
                old(state).paths(),
                old(state).path_recency(),
            )
            &&& final(state).strings() == sp.pool
            &&& final(state).string_recency() == sp.recency
            &&& final(state).paths() == pp.pool
            &&& final(state).path_recency() == pp.recency
        },
{
    if actions.len() > DEFAULT_ACTIONS_LIMIT {
        return Err(Error::new(ErrorKind::InvalidData, "too many actions"));
    }
    let savepoint = state.savepoint();
    let ghost s0 = state.strings();
    let ghost p0 = state.paths();
    let ghost start = *state;
    let mut strings = StringPreparation::new(state);
    let ghost acts_all = actions_view(actions@);
    let ghost init_s = StringsPrep {
        pool: s0,
        recency: old(state).string_recency(),
        seen: Seq::empty(),
        patch: Seq::empty(),
    };
    let mut i: usize = 0;
    proof {
        assert(acts_all.take(0) =~= Seq::<ActionView>::empty());
    }
    while i < actions.len()
        invariant
            acts_all == actions_view(actions@),
            strings.prep(state) == prep_actions(init_s, acts_all.take(i as int)),
            state.path_recency() == old(state).path_recency(),
            strings.inv(state),
            strings.base() == s0,
            state.paths() == p0,
            state.keeps_savepoints(&start),
            start == *old(state),
            i <= actions@.len(),
        decreases actions@.len() - i,
    {
        let ghost before = *state;
        proof {
            assert(acts_all.take(i + 1).drop_last() =~= acts_all.take(i as int));
            assert(acts_all[i as int] == actions@[i as int]@);
        }
        match &actions[i] {
            Action::Snapshot { value } => strings.touch_value(value, state),
            Action::Add { value, .. } => strings.touch_value(value, state),
            Action::Replace { value, .. } => strings.touch_value(value, state),
            _ => {},
        }
        proof {
            ProducerStateTxn::lemma_keeps_trans(&start, &before, state);
        }
        i += 1;
    }
    let ghost s1 = state.strings();
    let ghost sr1 = state.string_recency();
    proof {
        strings.lemma_patch(state);
        assert(acts_all.take(actions@.len() as int) =~= acts_all);
    }
    let mut paths = PathPreparation::new(state);
    let ghost init_p = PathsPrep {
        pool: p0,
        recency: old(state).path_recency(),
        seen: Seq::empty(),
        patch: Seq::empty(),
    };
    let mut i: usize = 0;
    while i < actions.len()
        invariant
            paths.inv(state),
            state.wf(),
            paths.base() == p0,
            state.strings() == s1,
            state.keeps_savepoints(&start),
            start == *old(state),
            old(state).savepoint_valid(savepoint),
            forall|sp2: crate::state::producer_state::ProducerStateSavepoint|
                old(state).savepoint_valid(sp2) ==> #[trigger] ProducerStateTxn::not_after(
                    sp2,
                    savepoint,
                ),
            old(state).saved_strings(savepoint) == s0,
            old(state).saved_paths(savepoint) == p0,
            s0 == old(state).strings(),
            p0 == old(state).paths(),
            old(state).saved_string_recency(savepoint) == old(state).string_recency(),
            old(state).saved_path_recency(savepoint) == old(state).path_recency(),
            i <= actions@.len(),
            forall|j: int|
                0 <= j < i ==> match #[trigger] actions@[j]@ {
                    ActionView::Add(p, _) => paths.seen().contains(p),
                    ActionView::Replace(p, _) => paths.seen().contains(p),
                    ActionView::Delete(p) => paths.seen().contains(p),
                    ActionView::Copy(p, f) => paths.seen().contains(p) && paths.seen().contains(f),
                    ActionView::Snapshot(_) => true,
                },
            forall|j: int|
                0 <= j < i ==> match #[trigger] actions@[j]@ {
                    ActionView::Add(p, _) => path_valid(p),
                    ActionView::Replace(p, _) => path_valid(p),
                    ActionView::Delete(p) => path_valid(p),
                    ActionView::Copy(p, f) => path_valid(p) && path_valid(f),
                    ActionView::Snapshot(_) => true,
                },
            paths.seen().len() <= path_count(actions_view(actions@).take(i as int)),
            acts_all == actions_view(actions@),
            paths.prep(state) == prep_action_paths(init_p, acts_all.take(i as int)),
            action_paths_ok(init_p, acts_all.take(i as int), s1),
            init_p == (PathsPrep {
                pool: p0,
                recency: old(state).path_recency(),
                seen: Seq::empty(),
                patch: Seq::empty(),
            }),
            state.string_recency() == sr1,
            strings.prep(state).patch == strings_prepared(acts_all, s0, old(state).string_recency()).patch,
            s1 == strings_prepared(acts_all, s0, old(state).string_recency()).pool,
            sr1 == strings_prepared(acts_all, s0, old(state).string_recency()).recency,
            paths.definition_bytes() <= literal_total(actions_view(actions@).take(i as int)),
        decreases actions@.len() - i,
    {
        let ghost before = *state;
        let ghost seen0 = paths.seen();
        let ghost prep0 = paths.prep(state);
        proof {
            assert(acts_all.take(i + 1).drop_last() =~= acts_all.take(i as int));
            assert(acts_all[i as int] == actions@[i as int]@);
            if packable(acts_all) {
                lemma_totals_prefix(acts_all, i + 1);
                assert(action_paths_valid(acts_all[i as int]));
            }
        }
        let result = match &actions[i] {
            Action::Add { path, .. } => paths.touch(path, state),
            Action::Replace { path, .. } => paths.touch(path, state),
            Action::Delete { path } => paths.touch(path, state),
            Action::Copy { path, from } => {
                let ghost mid0 = *state;
                let first = paths.touch(path, state);
                if first.is_err() {
                    first
                } else {
                    let ghost mid = *state;
                    let ghost seen1 = paths.seen();
                    let ghost prep1 = paths.prep(state);
                    let second = paths.touch(from, state);
                    proof {
                        assert(prep1 == prep_path(prep0, path@));
                        ProducerStateTxn::lemma_keeps_trans(&mid0, &mid, state);
                        crate::protocol::preparation::lemma_prefix_contains(seen1, paths.seen());
                        crate::protocol::preparation::lemma_prefix_trans(seen0, seen1, paths.seen());
                    }
                    second
                }
            },
            Action::Snapshot { .. } => Ok(()),
        };
        proof {
            ProducerStateTxn::lemma_keeps_trans(&start, &before, state);
        }
        if let Err(e) = result {
            proof {
                assert(!(actions@[i as int]@ is Snapshot));
                assert(!action_paths_ok(init_p, acts_all.take(i + 1), s1));
                if action_paths_ok(init_p, acts_all, s1) {
                    lemma_action_paths_ok_prefix(init_p, acts_all, s1, i + 1);
                }
            }
            let ghost pre = *state;
            proof {
                assert(pre.savepoint_valid(savepoint));
                assert(pre.saved_strings(savepoint) == s0);
                assert(pre.saved_paths(savepoint) == p0);
                assert(pre.saved_string_recency(savepoint) == old(state).string_recency());
                assert(pre.saved_path_recency(savepoint) == old(state).path_recency());
            }
            state.rollback_to(savepoint);
            proof {
                assert forall|sp2: crate::state::producer_state::ProducerStateSavepoint|
                    old(state).savepoint_valid(sp2) implies #[trigger] state.savepoint_valid(sp2)
                    && state.saved_strings(sp2) == old(state).saved_strings(sp2)
                    && state.saved_paths(sp2) == old(state).saved_paths(sp2)
                    && state.saved_string_recency(sp2) == old(state).saved_string_recency(sp2)
                    && state.saved_path_recency(sp2) == old(state).saved_path_recency(sp2) by {
                    assert(pre.savepoint_valid(sp2));
                    assert(pre.saved_strings(sp2) == old(state).saved_strings(sp2));
                    assert(pre.saved_paths(sp2) == old(state).saved_paths(sp2));
                    assert(pre.saved_string_recency(sp2) == old(state).saved_string_recency(sp2));
                    assert(pre.saved_path_recency(sp2) == old(state).saved_path_recency(sp2));
                    assert(ProducerStateTxn::not_after(sp2, savepoint));
                    assert(state.savepoint_valid(sp2));
                    assert(state.saved_strings(sp2) == pre.saved_strings(sp2));
                }
                assert(state.keeps_savepoints(old(state)));
                assert(!packs(acts_all, s0, old(state).string_recency(), p0, old(state).path_recency()));
            }
            return Err(e);
        }
        proof {
            crate::protocol::preparation::lemma_prefix_contains(seen0, paths.seen());
        }
        i += 1;
    }
    let ghost s_final = state.strings();
    let ghost p_final = state.paths();
    proof {
        paths.lemma_patch(state);
    }
    let ghost sp = strings.patch();
    let ghost pp = paths.patch();
    let ghost acts = actions_view(actions@);
    proof {
        state.lemma_pools_valid();
        assert(s_final == patched(s0, sp));
        assert(p_final == patched(p0, pp));
        assert(prepared(s0, p0, sp, pp, s_final, p_final));
        assert forall|j: int| 0 <= j < acts.len() implies action_paths_pooled(#[trigger] acts[j], p_final) by {
            assert(acts[j] == actions@[j]@);
            match actions@[j]@ {
                ActionView::Add(p, _) => {
                    assert(paths.seen().contains(p));
                },
                ActionView::Replace(p, _) => {
                    assert(paths.seen().contains(p));
                },
                ActionView::Delete(p) => {
                    assert(paths.seen().contains(p));
                },
                ActionView::Copy(p, f) => {
                    assert(paths.seen().contains(p));
                    assert(paths.seen().contains(f));
                },
                _ => {},
            }
        }
    }
    let string_patch = strings.into_patch();
    let path_patch = paths.into_patch();
    proof {
        assert(string_patch_view(string_patch@) == sp);
        assert(path_patch_view(path_patch@) == pp);
    }
    let mut out = pack_metadata(declare, &string_patch, &path_patch, state);
    pack_varuint(&mut out, actions.len() as u64);
    let ghost head = out@;
    let mut i: usize = 0;
    proof {
        assert(acts.take(0) =~= Seq::<ActionView>::empty());
    }
    while i < actions.len()
        invariant
            state.wf(),
            state.strings() == s_final,
            state.paths() == p_final,
            acts == actions_view(actions@),
            values_fit(acts),
            forall|j: int| 0 <= j < acts.len() ==> action_paths_pooled(#[trigger] acts[j], p_final),
            forall|j: int|
                0 <= j < i ==> match action_value(#[trigger] acts[j]) {
                    Some(v) => canonical(v),
                    None => true,
                },
            i <= actions@.len(),
            out@ == head + enc_actions(acts.take(i as int), s_final, p_final),
        decreases actions@.len() - i,
    {
        proof {
            assert(acts[i as int] == actions@[i as int]@);
            assert(acts.take(i + 1).drop_last() =~= acts.take(i as int));
            assert(acts.take(i + 1).last() == acts[i as int]);
            assert(action_paths_pooled(acts[i as int], p_final));
        }
        match pack_action(&mut out, &actions[i], state) {
            Ok(()) => {},
            Err(e) => {
                proof {
                    assert(false);
                }
                return Err(e);
            },
        }
        i += 1;
    }
    proof {
        assert(acts.take(i as int) =~= acts);
        assert(out@ =~= enc_message(declare, acts, sp, pp, s_final, p_final));
        assert(values_fit(acts));
        assert forall|j: int| 0 <= j < acts.len() implies action_paths_pooled(#[trigger] acts[j], p_final)
            && match action_value(acts[j]) {
            Some(v) => canonical(v) && fits(v),
            None => true,
        } by {
            assert(action_paths_pooled(acts[j], p_final));
        }
        assert(actions_ready(acts, p_final));
        assert(prepared(s0, p0, sp, pp, s_final, p_final) && actions_ready(acts, p_final) && out@
            == enc_message(declare, acts, sp, pp, s_final, p_final));
    }
    Ok(out)
}

/// Whether the value can be encoded: every map key shorter than 2^62 bytes.
pub fn value_fits(v: &Value) -> (b: bool)
    ensures
        b == fits(v@),
    decreases v@,
{
    match v.inner() {
        ValueInner::Array { items } => {
            let mut i: usize = 0;
            while i < items.len()
                invariant
                    v@ == ValueView::Array(items_view(items@)),
                    i <= items@.len(),
                    forall|j: int| 0 <= j < i ==> fits(#[trigger] items_view(items@)[j]),
                decreases items@.len() - i,
            {
                proof {
                    assert(items_view(items@)[i as int] == items@[i as int]@);
                    assert(decreases_to!(v@ => v@->Array_0));
                    assert(decreases_to!(v@->Array_0 => v@->Array_0[i as int]));
                }
                if !value_fits(&items[i]) {
                    proof {
                        assert(!fits(items_view(items@)[i as int]));
                    }
                    return false;
                }
                i += 1;
            }
            proof {
                assert(items_view(items@).len() == items@.len());
            }
            true
        },
        ValueInner::Mapping { entries } => {
            let mut i: usize = 0;
            while i < entries.len()
                invariant
                    v@ == ValueView::Mapping(pairs_view(entries@)),
                    i <= entries@.len(),
                    forall|j: int|
                        0 <= j < i ==> key_bytes(#[trigger] pairs_view(entries@)[j].0).len()
                            < 0x4000_0000_0000_0000 && fits(pairs_view(entries@)[j].1),
                decreases entries@.len() - i,
            {
                proof {
                    assert(pairs_view(entries@)[i as int] == (entries@[i as int].0@, entries@[i as int].1@));
                    assert(decreases_to!(v@ => v@->Mapping_0));
                    assert(decreases_to!(v@->Mapping_0 => v@->Mapping_0[i as int]));
                    assert(decreases_to!(v@->Mapping_0[i as int] => v@->Mapping_0[i as int].1));
                }
                let key_bytes_exec = entries[i].0.as_str().as_bytes();
                let key_len = key_bytes_exec.len() as u64;
                proof {
                    assert(key_bytes_exec@ == key_bytes(pairs_view(entries@)[i as int].0));
                }
                if key_len >= 0x4000_0000_0000_0000u64 {
                    proof {
                        assert(!(key_bytes(pairs_view(entries@)[i as int].0).len() < 0x4000_0000_0000_0000));
                    }
                    return false;
                }
                if !value_fits(&entries[i].1) {
                    proof {
                        assert(!fits(pairs_view(entries@)[i as int].1));
                        assert(key_bytes(pairs_view(entries@)[i as int].0).len() < 0x4000_0000_0000_0000);
                    }
                    return false;
                }
                i += 1;
            }
            proof {
                assert(pairs_view(entries@).len() == entries@.len());
            }
            true
        },
        ValueInner::TStr { text } => {
            let b = text.as_str().as_bytes();
            let n = b.len();
            proof {
                assert(b@ == key_bytes(text@));
            }
            true
        },
        ValueInner::BStr { bytes } => {
            let n = bytes.len();
            true
        },
        _ => true,
    }
}

} // verus!
