//! What the encoder writes, the decoder reads back: the actions, and the
//! pools the producer has after the message.

use vstd::prelude::*;

use super::format::{lemma_value_roundtrip, pooled_key};
use super::frame::{
    action_code, action_paths_pooled, action_value, actions_ready, dec_action, dec_actions,
    dec_declaration, dec_message, dec_metadata, dec_path, dec_path_entries, dec_path_ref, dec_segments,
    dec_string_entries, dec_varuint, enc_action, enc_actions, enc_message, enc_metadata, enc_path,
    enc_declaration, enc_path_entries, enc_path_ref, enc_segment, enc_segments,
    enc_string_entries, metadata_count, prepared,
};
use crate::patch::{ActionView, SegmentView};
use crate::protocol::consts::{
    ACTION_ADD, ACTION_COPY, ACTION_DELETE, ACTION_REPLACE, ACTION_SNAPSHOT, DEFAULT_ACTIONS_LIMIT,
    METADATA_PATHS, METADATA_PROTOCOL, METADATA_STRINGS, SUPPORTED_PROTOCOL,
};
use crate::protocol::layout::path_ref_shorter;
use crate::protocol::preparation::{definitions_len, distinct_keys, key_bytes_total, path_valid};
use crate::protocol::varuint::{lemma_varuint_bytes_len, lemma_varuint_roundtrip, varuint_bytes};
use crate::state::consumer_state::patched;
use crate::state::{
    PATH_KEY_BYTES_LIMIT, PATH_PATCH_BYTES_LIMIT, PATH_POOL_CAPACITY, PATH_SEGMENTS_LIMIT,
    STRING_POOL_CAPACITY,
};
use crate::value::key_bytes;

verus! {

/// Where `x + y` stands in `b`, `x` stands, and `y` right after it.
pub proof fn lemma_split(b: Seq<u8>, pos: int, x: Seq<u8>, y: Seq<u8>)
    requires
        0 <= pos,
        pos + x.len() + y.len() <= b.len(),
        b.subrange(pos, pos + x.len() + y.len()) == x + y,
    ensures
        b.subrange(pos, pos + x.len()) == x,
        b.subrange(pos + x.len(), pos + x.len() + y.len()) == y,
{
    let w = x + y;
    assert forall|j: int| 0 <= j < x.len() implies b.subrange(pos, pos + x.len())[j] == x[j] by {
        assert(b.subrange(pos, pos + w.len())[j] == w[j]);
    }
    assert(b.subrange(pos, pos + x.len()) =~= x);
    assert forall|j: int| 0 <= j < y.len() implies b.subrange(
        pos + x.len(),
        pos + x.len() + y.len(),
    )[j] == y[j] by {
        assert(b.subrange(pos, pos + w.len())[x.len() + j] == w[x.len() + j]);
    }
    assert(b.subrange(pos + x.len(), pos + x.len() + y.len()) =~= y);
}

/// A variable-length integer reads back where it stands.
pub proof fn lemma_varuint_at(b: Seq<u8>, pos: int, v: nat)
    requires
        v < 0x1_0000_0000_0000_0000,
        0 <= pos,
        pos + varuint_bytes(v).len() <= b.len(),
        b.subrange(pos, pos + varuint_bytes(v).len()) == varuint_bytes(v),
    ensures
        dec_varuint(b, pos) == Some((v, pos + varuint_bytes(v).len())),
{
    let e = varuint_bytes(v);
    let rest = b.skip(pos + e.len());
    assert(b.skip(pos) =~= e + rest);
    lemma_varuint_roundtrip(v as u64, rest);
}

/// String patch entries encode as the first one followed by the rest.
proof fn lemma_string_entries_front(sp: Seq<(u32, Seq<char>)>)
    requires
        sp.len() > 0,
    ensures
        enc_string_entries(sp) == varuint_bytes(sp[0].0 as nat) + varuint_bytes(
            key_bytes(sp[0].1).len(),
        ) + key_bytes(sp[0].1) + enc_string_entries(sp.drop_first()),
    decreases sp.len(),
{
    if sp.len() == 1 {
        assert(sp.drop_last() =~= Seq::<(u32, Seq<char>)>::empty());
        assert(sp.drop_first() =~= Seq::<(u32, Seq<char>)>::empty());
        assert(enc_string_entries(sp.drop_last()) == Seq::<u8>::empty());
        assert(enc_string_entries(sp.drop_first()) == Seq::<u8>::empty());
        assert(sp.last() == sp[0]);
        assert(enc_string_entries(sp) =~= varuint_bytes(sp[0].0 as nat) + varuint_bytes(
            key_bytes(sp[0].1).len(),
        ) + key_bytes(sp[0].1) + enc_string_entries(sp.drop_first()));
    } else {
        lemma_string_entries_front(sp.drop_last());
        assert(sp.drop_last().drop_first() =~= sp.drop_first().drop_last());
        assert(sp.drop_first().last() == sp.last());
        assert(enc_string_entries(sp) =~= varuint_bytes(sp[0].0 as nat) + varuint_bytes(
            key_bytes(sp[0].1).len(),
        ) + key_bytes(sp[0].1) + enc_string_entries(sp.drop_first()));
    }
}

/// String patch entries read back, when their keys are distinct pool keys
/// not seen before.
proof fn lemma_string_entries_roundtrip(sp: Seq<(u32, Seq<char>)>, seen: Set<nat>, b: Seq<u8>, pos: int)
    requires
        distinct_keys(sp),
        forall|i: int|
            0 <= i < sp.len() ==> (#[trigger] sp[i].0 as int) < STRING_POOL_CAPACITY && key_bytes(
                sp[i].1,
            ).len() < 0x1_0000_0000_0000_0000 && !seen.contains(sp[i].0 as nat),
        0 <= pos,
        pos + enc_string_entries(sp).len() <= b.len(),
        b.subrange(pos, pos + enc_string_entries(sp).len()) == enc_string_entries(sp),
    ensures
        dec_string_entries(b, pos, sp.len(), seen) == Some((sp, pos + enc_string_entries(sp).len())),
    decreases sp.len(),
{
    if sp.len() == 0 {
        assert(sp =~= Seq::<(u32, Seq<char>)>::empty());
    } else {
        lemma_string_entries_front(sp);
        let k = sp[0].0;
        let t = sp[0].1;
        let kb = key_bytes(t);
        let a = varuint_bytes(k as nat);
        let l = varuint_bytes(kb.len());
        let rest = enc_string_entries(sp.drop_first());
        assert(enc_string_entries(sp) == a + (l + (kb + rest))) by {
            assert(a + l + kb + rest =~= a + (l + (kb + rest)));
        }
        lemma_split(b, pos, a, l + (kb + rest));
        lemma_split(b, pos + a.len(), l, kb + rest);
        lemma_split(b, pos + a.len() + l.len(), kb, rest);
        lemma_varuint_at(b, pos, k as nat);
        lemma_varuint_at(b, pos + a.len(), kb.len());
        vstd::utf8::encode_utf8_valid_utf8(t);
        vstd::utf8::encode_utf8_decode_utf8(t);
        let next = pos + a.len() + l.len() + kb.len();
        assert forall|i: int| 0 <= i < sp.drop_first().len() implies (#[trigger] sp.drop_first()[i].0 as int)
            < STRING_POOL_CAPACITY && key_bytes(sp.drop_first()[i].1).len() < 0x1_0000_0000_0000_0000
            && !seen.insert(k as nat).contains(sp.drop_first()[i].0 as nat) by {
            assert(sp.drop_first()[i] == sp[i + 1]);
            assert(sp[0].0 != sp[i + 1].0);
        }
        lemma_string_entries_roundtrip(sp.drop_first(), seen.insert(k as nat), b, next);
        assert(seq![(k, t)] + sp.drop_first() =~= sp);
    }
}

/// Segments encode as the first one followed by the rest.
proof fn lemma_segments_front(segs: Seq<SegmentView>, strings: Map<u32, Seq<char>>)
    requires
        segs.len() > 0,
    ensures
        enc_segments(segs, strings) == enc_segment(segs[0], strings) + enc_segments(
            segs.drop_first(),
            strings,
        ),
        key_bytes_total(segs) == key_bytes_total(seq![segs[0]]) + key_bytes_total(
            segs.drop_first(),
        ),
    decreases segs.len(),
{
    let one = seq![segs[0]];
    assert(one.drop_last() =~= Seq::<SegmentView>::empty());
    assert(one.last() == segs[0]);
    if segs.len() == 1 {
        assert(segs.drop_last() =~= Seq::<SegmentView>::empty());
        assert(segs.drop_first() =~= Seq::<SegmentView>::empty());
        assert(enc_segments(segs.drop_last(), strings) == Seq::<u8>::empty());
        assert(enc_segments(segs.drop_first(), strings) == Seq::<u8>::empty());
        assert(segs.last() == segs[0]);
        assert(enc_segments(segs, strings) =~= enc_segment(segs[0], strings));
    } else {
        lemma_segments_front(segs.drop_last(), strings);
        assert(segs.drop_last().drop_first() =~= segs.drop_first().drop_last());
        assert(segs.drop_first().last() == segs.last());
        assert(enc_segments(segs, strings) =~= enc_segment(segs[0], strings) + enc_segments(
            segs.drop_first(),
            strings,
        ));
    }
}

/// Path segments read back, when their literal keys fit the budget.
proof fn lemma_segments_roundtrip(
    segs: Seq<SegmentView>,
    budget: nat,
    strings: Map<u32, Seq<char>>,
    b: Seq<u8>,
    pos: int,
)
    requires
        key_bytes_total(segs) <= budget,
        budget <= PATH_KEY_BYTES_LIMIT,
        forall|i: int|
            0 <= i < segs.len() ==> (#[trigger] segs[i] matches SegmentView::Index(x) ==> x
                <= 0x3FFF_FFFF_FFFF_FFFF && x <= usize::MAX),
        0 <= pos,
        pos + enc_segments(segs, strings).len() <= b.len(),
        b.subrange(pos, pos + enc_segments(segs, strings).len()) == enc_segments(segs, strings),
    ensures
        dec_segments(b, pos, segs.len(), budget, strings) == Some(
            (segs, pos + enc_segments(segs, strings).len()),
        ),
    decreases segs.len(),
{
    if segs.len() == 0 {
        assert(segs =~= Seq::<SegmentView>::empty());
    } else {
        lemma_segments_front(segs, strings);
        let s0 = segs[0];
        let e0 = enc_segment(s0, strings);
        let rest = enc_segments(segs.drop_first(), strings);
        lemma_split(b, pos, e0, rest);
        let one = seq![s0];
        assert(one.drop_last() =~= Seq::<SegmentView>::empty());
        assert(one.last() == s0);
        let next = pos + e0.len();
        let budget2: nat = match s0 {
            SegmentView::Key(k) => {
                let kb = key_bytes(k);
                let literal = match pooled_key(strings, k) {
                    Some(x) => !path_ref_shorter(kb.len(), x as nat),
                    None => true,
                };
                assert(kb.len() <= budget);
                if literal {
                    let v = varuint_bytes(kb.len() * 4);
                    assert(e0 == v + kb);
                    lemma_split(b, pos, v, kb);
                    lemma_varuint_at(b, pos, kb.len() * 4);
                    vstd::utf8::encode_utf8_valid_utf8(k);
                    vstd::utf8::encode_utf8_decode_utf8(k);
                    (budget - kb.len()) as nat
                } else {
                    let x = pooled_key(strings, k)->Some_0;
                    assert(strings.contains_key(x) && strings[x] == k);
                    lemma_varuint_at(b, pos, x as nat * 4 + 2);
                    budget
                }
            },
            SegmentView::Index(i) => {
                assert(s0 == segs[0]);
                lemma_varuint_at(b, pos, i * 4 + 1);
                budget
            },
        };
        assert(key_bytes_total(segs.drop_first()) <= budget2);
        assert forall|i: int| 0 <= i < segs.drop_first().len() implies (
        #[trigger] segs.drop_first()[i] matches SegmentView::Index(x) ==> x
            <= 0x3FFF_FFFF_FFFF_FFFF && x <= usize::MAX) by {
            assert(segs.drop_first()[i] == segs[i + 1]);
        }
        lemma_segments_roundtrip(segs.drop_first(), budget2, strings, b, next);
        assert(seq![s0] + segs.drop_first() =~= segs);
    }
}

/// A valid path definition reads back.
proof fn lemma_path_roundtrip(p: Seq<SegmentView>, strings: Map<u32, Seq<char>>, b: Seq<u8>, pos: int)
    requires
        path_valid(p),
        0 <= pos,
        pos + enc_path(p, strings).len() <= b.len(),
        b.subrange(pos, pos + enc_path(p, strings).len()) == enc_path(p, strings),
    ensures
        dec_path(b, pos, strings) == Some((p, pos + enc_path(p, strings).len())),
{
    let v = varuint_bytes(p.len());
    let body = enc_segments(p, strings);
    lemma_split(b, pos, v, body);
    lemma_varuint_at(b, pos, p.len());
    lemma_segments_roundtrip(p, PATH_KEY_BYTES_LIMIT as nat, strings, b, pos + v.len());
}

/// Path patch entries encode as the first one followed by the rest, and
/// their definitions' lengths add up the same way.
proof fn lemma_path_entries_front(pp: Seq<(u32, Seq<SegmentView>)>, strings: Map<u32, Seq<char>>)
    requires
        pp.len() > 0,
    ensures
        enc_path_entries(pp, strings) == varuint_bytes(pp[0].0 as nat) + enc_path(pp[0].1, strings)
            + enc_path_entries(pp.drop_first(), strings),
        definitions_len(pp, strings) == enc_path(pp[0].1, strings).len() + definitions_len(
            pp.drop_first(),
            strings,
        ),
    decreases pp.len(),
{
    if pp.len() == 1 {
        assert(pp.drop_last() =~= Seq::<(u32, Seq<SegmentView>)>::empty());
        assert(pp.drop_first() =~= Seq::<(u32, Seq<SegmentView>)>::empty());
        assert(enc_path_entries(pp.drop_last(), strings) == Seq::<u8>::empty());
        assert(enc_path_entries(pp.drop_first(), strings) == Seq::<u8>::empty());
        assert(pp.last() == pp[0]);
        assert(enc_path_entries(pp, strings) =~= varuint_bytes(pp[0].0 as nat) + enc_path(
            pp[0].1,
            strings,
        ) + enc_path_entries(pp.drop_first(), strings));
    } else {
        lemma_path_entries_front(pp.drop_last(), strings);
        assert(pp.drop_last().drop_first() =~= pp.drop_first().drop_last());
        assert(pp.drop_first().last() == pp.last());
        assert(enc_path_entries(pp, strings) =~= varuint_bytes(pp[0].0 as nat) + enc_path(
            pp[0].1,
            strings,
        ) + enc_path_entries(pp.drop_first(), strings));
    }
}

/// Path patch entries read back, when their keys are distinct pool keys not
/// seen before and their definitions fit in the bytes that remain for them.
proof fn lemma_path_entries_roundtrip(
    pp: Seq<(u32, Seq<SegmentView>)>,
    remaining: nat,
    seen: Set<nat>,
    strings: Map<u32, Seq<char>>,
    b: Seq<u8>,
    pos: int,
)
    requires
        distinct_keys(pp),
        forall|i: int|
            0 <= i < pp.len() ==> (#[trigger] pp[i].0 as int) < PATH_POOL_CAPACITY && path_valid(
                pp[i].1,
            ) && !seen.contains(pp[i].0 as nat),
        definitions_len(pp, strings) <= remaining,
        0 <= pos,
        pos + enc_path_entries(pp, strings).len() <= b.len(),
        b.subrange(pos, pos + enc_path_entries(pp, strings).len()) == enc_path_entries(pp, strings),
    ensures
        dec_path_entries(b, pos, pp.len(), remaining, seen, strings) == Some(
            (pp, pos + enc_path_entries(pp, strings).len()),
        ),
    decreases pp.len(),
{
    if pp.len() == 0 {
        assert(pp =~= Seq::<(u32, Seq<SegmentView>)>::empty());
    } else {
        lemma_path_entries_front(pp, strings);
        let k = pp[0].0;
        let p = pp[0].1;
        let a = varuint_bytes(k as nat);
        let d = enc_path(p, strings);
        let rest = enc_path_entries(pp.drop_first(), strings);
        assert(enc_path_entries(pp, strings) == a + (d + rest)) by {
            assert(a + d + rest =~= a + (d + rest));
        }
        lemma_split(b, pos, a, d + rest);
        lemma_split(b, pos + a.len(), d, rest);
        lemma_varuint_at(b, pos, k as nat);
        let p2 = pos + a.len();
        let window_end = if b.len() - p2 < remaining {
            b.len() as int
        } else {
            p2 + remaining
        };
        let w = b.subrange(0, window_end);
        assert(w.subrange(p2, p2 + d.len()) =~= b.subrange(p2, p2 + d.len()));
        lemma_path_roundtrip(p, strings, w, p2);
        assert forall|i: int| 0 <= i < pp.drop_first().len() implies (#[trigger] pp.drop_first()[i].0 as int)
            < PATH_POOL_CAPACITY && path_valid(pp.drop_first()[i].1) && !seen.insert(
            k as nat,
        ).contains(pp.drop_first()[i].0 as nat) by {
            assert(pp.drop_first()[i] == pp[i + 1]);
            assert(pp[0].0 != pp[i + 1].0);
        }
        lemma_path_entries_roundtrip(
            pp.drop_first(),
            (remaining - d.len()) as nat,
            seen.insert(k as nat),
            strings,
            b,
            p2 + d.len(),
        );
        assert(seq![(k, p)] + pp.drop_first() =~= pp);
    }
}

/// A path pooled under a key below the capacity reads back by that key.
proof fn lemma_path_ref_roundtrip(
    p: Seq<SegmentView>,
    paths: Map<u32, Seq<SegmentView>>,
    b: Seq<u8>,
    pos: int,
)
    requires
        pooled_key(paths, p) is Some,
        forall|k: u32| #[trigger] paths.contains_key(k) ==> (k as int) < PATH_POOL_CAPACITY,
        0 <= pos,
        pos + enc_path_ref(p, paths).len() <= b.len(),
        b.subrange(pos, pos + enc_path_ref(p, paths).len()) == enc_path_ref(p, paths),
    ensures
        dec_path_ref(b, pos, paths) == Some((p, pos + enc_path_ref(p, paths).len())),
{
    let k = pooled_key(paths, p)->Some_0;
    assert(paths.contains_key(k) && paths[k] == p);
    lemma_varuint_at(b, pos, k as nat);
}

/// An action reads back as written.
#[verifier::rlimit(100)]
proof fn lemma_action_roundtrip(
    a: ActionView,
    strings: Map<u32, Seq<char>>,
    paths: Map<u32, Seq<SegmentView>>,
    b: Seq<u8>,
    pos: int,
)
    requires
        action_paths_pooled(a, paths),
        forall|k: u32| #[trigger] paths.contains_key(k) ==> (k as int) < PATH_POOL_CAPACITY,
        match action_value(a) {
            Some(v) => crate::value::canonical(v) && super::format::fits(v),
            None => true,
        },
        0 <= pos,
        pos + enc_action(a, strings, paths).len() <= b.len(),
        b.subrange(pos, pos + enc_action(a, strings, paths).len()) == enc_action(a, strings, paths),
    ensures
        dec_action(b, pos, strings, paths) == Some((a, pos + enc_action(a, strings, paths).len())),
{
    let t = varuint_bytes(action_code(a) as nat);
    let e = enc_action(a, strings, paths);
    let body = e.subrange(t.len() as int, e.len() as int);
    assert(e =~= t + body);
    lemma_split(b, pos, t, body);
    lemma_varuint_at(b, pos, action_code(a) as nat);
    let p2 = pos + t.len();
    match a {
        ActionView::Snapshot(v) => {
            assert(body =~= super::format::enc_value(v, strings));
            lemma_value_roundtrip(v, strings, b, p2);
        },
        ActionView::Add(p, v) => {
            let r = enc_path_ref(p, paths);
            let x = super::format::enc_value(v, strings);
            assert(body =~= r + x);
            lemma_split(b, p2, r, x);
            lemma_path_ref_roundtrip(p, paths, b, p2);
            lemma_value_roundtrip(v, strings, b, p2 + r.len());
        },
        ActionView::Replace(p, v) => {
            let r = enc_path_ref(p, paths);
            let x = super::format::enc_value(v, strings);
            assert(body =~= r + x);
            lemma_split(b, p2, r, x);
            lemma_path_ref_roundtrip(p, paths, b, p2);
            lemma_value_roundtrip(v, strings, b, p2 + r.len());
        },
        ActionView::Delete(p) => {
            assert(body =~= enc_path_ref(p, paths));
            lemma_path_ref_roundtrip(p, paths, b, p2);
        },
        ActionView::Copy(p, f) => {
            let r = enc_path_ref(p, paths);
            let r2 = enc_path_ref(f, paths);
            assert(body =~= r + r2);
            lemma_split(b, p2, r, r2);
            lemma_path_ref_roundtrip(p, paths, b, p2);
            lemma_path_ref_roundtrip(f, paths, b, p2 + r.len());
        },
    }
}

/// Actions encode as the first one followed by the rest.
proof fn lemma_actions_front(
    acts: Seq<ActionView>,
    strings: Map<u32, Seq<char>>,
    paths: Map<u32, Seq<SegmentView>>,
)
    requires
        acts.len() > 0,
    ensures
        enc_actions(acts, strings, paths) == enc_action(acts[0], strings, paths) + enc_actions(
            acts.drop_first(),
            strings,
            paths,
        ),
    decreases acts.len(),
{
    if acts.len() == 1 {
        assert(acts.drop_last() =~= Seq::<ActionView>::empty());
        assert(acts.drop_first() =~= Seq::<ActionView>::empty());
        assert(enc_actions(acts.drop_last(), strings, paths) == Seq::<u8>::empty());
        assert(enc_actions(acts.drop_first(), strings, paths) == Seq::<u8>::empty());
        assert(acts.last() == acts[0]);
        assert(enc_actions(acts, strings, paths) =~= enc_action(acts[0], strings, paths));
    } else {
        lemma_actions_front(acts.drop_last(), strings, paths);
        assert(acts.drop_last().drop_first() =~= acts.drop_first().drop_last());
        assert(acts.drop_first().last() == acts.last());
        assert(enc_actions(acts, strings, paths) =~= enc_action(acts[0], strings, paths)
            + enc_actions(acts.drop_first(), strings, paths));
    }
}

/// Actions read back as written.
proof fn lemma_actions_roundtrip(
    acts: Seq<ActionView>,
    strings: Map<u32, Seq<char>>,
    paths: Map<u32, Seq<SegmentView>>,
    b: Seq<u8>,
    pos: int,
)
    requires
        forall|i: int|
            0 <= i < acts.len() ==> action_paths_pooled(#[trigger] acts[i], paths) && match action_value(
                acts[i],
            ) {
                Some(v) => crate::value::canonical(v) && super::format::fits(v),
                None => true,
            },
        forall|k: u32| #[trigger] paths.contains_key(k) ==> (k as int) < PATH_POOL_CAPACITY,
        0 <= pos,
        pos + enc_actions(acts, strings, paths).len() <= b.len(),
        b.subrange(pos, pos + enc_actions(acts, strings, paths).len()) == enc_actions(
            acts,
            strings,
            paths,
        ),
    ensures
        dec_actions(b, pos, acts.len(), strings, paths) == Some(
            (acts, pos + enc_actions(acts, strings, paths).len()),
        ),
    decreases acts.len(),
{
    if acts.len() == 0 {
        assert(acts =~= Seq::<ActionView>::empty());
    } else {
        lemma_actions_front(acts, strings, paths);
        let e0 = enc_action(acts[0], strings, paths);
        let rest = enc_actions(acts.drop_first(), strings, paths);
        lemma_split(b, pos, e0, rest);
        lemma_action_roundtrip(acts[0], strings, paths, b, pos);
        assert forall|i: int| 0 <= i < acts.drop_first().len() implies action_paths_pooled(
            #[trigger] acts.drop_first()[i],
            paths,
        ) && match action_value(acts.drop_first()[i]) {
            Some(v) => crate::value::canonical(v) && super::format::fits(v),
            None => true,
        } by {
            assert(acts.drop_first()[i] == acts[i + 1]);
        }
        lemma_actions_roundtrip(acts.drop_first(), strings, paths, b, pos + e0.len());
        assert(seq![acts[0]] + acts.drop_first() =~= acts);
    }
}

/// The bytes of the string pool patch instruction.
pub open spec fn strings_part(sp: Seq<(u32, Seq<char>)>) -> Seq<u8> {
    if sp.len() > 0 {
        varuint_bytes(METADATA_STRINGS as nat) + varuint_bytes(sp.len()) + enc_string_entries(sp)
    } else {
        Seq::empty()
    }
}

/// The bytes of the path pool patch instruction.
pub open spec fn paths_part(pp: Seq<(u32, Seq<SegmentView>)>, strings: Map<u32, Seq<char>>) -> Seq<
    u8,
> {
    if pp.len() > 0 {
        varuint_bytes(METADATA_PATHS as nat) + varuint_bytes(pp.len()) + enc_path_entries(
            pp,
            strings,
        )
    } else {
        Seq::empty()
    }
}

/// The string pool patch instruction reads back.
proof fn lemma_strings_part(sp: Seq<(u32, Seq<char>)>, b: Seq<u8>, pos: int)
    requires
        sp.len() > 0,
        sp.len() <= STRING_POOL_CAPACITY,
        distinct_keys(sp),
        forall|i: int|
            0 <= i < sp.len() ==> (#[trigger] sp[i].0 as int) < STRING_POOL_CAPACITY && key_bytes(
                sp[i].1,
            ).len() < 0x1_0000_0000_0000_0000,
        0 <= pos,
        pos + strings_part(sp).len() <= b.len(),
        b.subrange(pos, pos + strings_part(sp).len()) == strings_part(sp),
    ensures
        ({
            let p2 = pos + varuint_bytes(METADATA_STRINGS as nat).len();
            let p3 = p2 + varuint_bytes(sp.len()).len();
            &&& dec_varuint(b, pos) == Some((METADATA_STRINGS as nat, p2))
            &&& dec_varuint(b, p2) == Some((sp.len(), p3))
            &&& dec_string_entries(b, p3, sp.len(), Set::empty()) == Some(
                (sp, pos + strings_part(sp).len()),
            )
        }),
{
    let i0 = varuint_bytes(METADATA_STRINGS as nat);
    let l0 = varuint_bytes(sp.len());
    let ents = enc_string_entries(sp);
    assert(strings_part(sp) =~= i0 + (l0 + ents));
    lemma_split(b, pos, i0, l0 + ents);
    lemma_split(b, pos + i0.len(), l0, ents);
    lemma_varuint_at(b, pos, METADATA_STRINGS as nat);
    lemma_varuint_at(b, pos + i0.len(), sp.len());
    assert forall|i: int| 0 <= i < sp.len() implies (#[trigger] sp[i].0 as int) < STRING_POOL_CAPACITY
        && key_bytes(sp[i].1).len() < 0x1_0000_0000_0000_0000 && !Set::<nat>::empty().contains(
        sp[i].0 as nat,
    ) by {}
    lemma_string_entries_roundtrip(sp, Set::empty(), b, pos + i0.len() + l0.len());
}

/// The path pool patch instruction reads back.
proof fn lemma_paths_part(
    pp: Seq<(u32, Seq<SegmentView>)>,
    strings: Map<u32, Seq<char>>,
    b: Seq<u8>,
    pos: int,
)
    requires
        pp.len() > 0,
        pp.len() <= PATH_POOL_CAPACITY,
        distinct_keys(pp),
        forall|i: int|
            0 <= i < pp.len() ==> (#[trigger] pp[i].0 as int) < PATH_POOL_CAPACITY && path_valid(
                pp[i].1,
            ),
        definitions_len(pp, strings) <= PATH_PATCH_BYTES_LIMIT,
        0 <= pos,
        pos + paths_part(pp, strings).len() <= b.len(),
        b.subrange(pos, pos + paths_part(pp, strings).len()) == paths_part(pp, strings),
    ensures
        ({
            let p2 = pos + varuint_bytes(METADATA_PATHS as nat).len();
            let p3 = p2 + varuint_bytes(pp.len()).len();
            &&& dec_varuint(b, pos) == Some((METADATA_PATHS as nat, p2))
            &&& dec_varuint(b, p2) == Some((pp.len(), p3))
            &&& dec_path_entries(b, p3, pp.len(), PATH_PATCH_BYTES_LIMIT as nat, Set::empty(), strings)
                == Some((pp, pos + paths_part(pp, strings).len()))
        }),
{
    let i1 = varuint_bytes(METADATA_PATHS as nat);
    let l1 = varuint_bytes(pp.len());
    let ents = enc_path_entries(pp, strings);
    assert(paths_part(pp, strings) =~= i1 + (l1 + ents));
    lemma_split(b, pos, i1, l1 + ents);
    lemma_split(b, pos + i1.len(), l1, ents);
    lemma_varuint_at(b, pos, METADATA_PATHS as nat);
    lemma_varuint_at(b, pos + i1.len(), pp.len());
    assert forall|i: int| 0 <= i < pp.len() implies (#[trigger] pp[i].0 as int) < PATH_POOL_CAPACITY
        && path_valid(pp[i].1) && !Set::<nat>::empty().contains(pp[i].0 as nat) by {}
    lemma_path_entries_roundtrip(
        pp,
        PATH_PATCH_BYTES_LIMIT as nat,
        Set::empty(),
        strings,
        b,
        pos + i1.len() + l1.len(),
    );
}

/// The pool patch instructions read back to the pools after the patches.
proof fn lemma_patches_roundtrip(
    sp: Seq<(u32, Seq<char>)>,
    pp: Seq<(u32, Seq<SegmentView>)>,
    s0: Map<u32, Seq<char>>,
    p0: Map<u32, Seq<SegmentView>>,
    s1: Map<u32, Seq<char>>,
    p1: Map<u32, Seq<SegmentView>>,
    b: Seq<u8>,
    pos: int,
)
    requires
        prepared(s0, p0, sp, pp, s1, p1),
        0 <= pos,
        pos + (strings_part(sp) + paths_part(pp, s1)).len() <= b.len(),
        b.subrange(pos, pos + (strings_part(sp) + paths_part(pp, s1)).len()) == strings_part(sp)
            + paths_part(pp, s1),
    ensures
        dec_metadata(b, pos, metadata_count(None, sp, pp), false, false, s0, p0) == Some(
            (s1, p1, pos + (strings_part(sp) + paths_part(pp, s1)).len()),
        ),
{
    let sa = strings_part(sp);
    let pa = paths_part(pp, s1);
    lemma_split(b, pos, sa, pa);
    let q0 = pos;
    let q1 = q0 + sa.len();
    let q2 = q1 + pa.len();
    if sp.len() > 0 {
        lemma_strings_part(sp, b, q0);
    } else {
        assert(sp =~= Seq::<(u32, Seq<char>)>::empty());
        assert(patched(s0, sp) == s0);
    }
    if pp.len() > 0 {
        lemma_paths_part(pp, s1, b, q1);
    } else {
        assert(pp =~= Seq::<(u32, Seq<SegmentView>)>::empty());
        assert(patched(p0, pp) == p0);
    }
    if sp.len() > 0 && pp.len() > 0 {
        assert(dec_metadata(b, q2, 0, true, true, s1, p1) == Some((s1, p1, q2)));
        assert(dec_metadata(b, q1, 1, true, false, s1, p0) == Some((s1, p1, q2)));
        assert(dec_metadata(b, q0, 2, false, false, s0, p0) == Some((s1, p1, q2)));
    } else if sp.len() > 0 {
        assert(dec_metadata(b, q1, 0, true, false, s1, p0) == Some((s1, p1, q2)));
        assert(dec_metadata(b, q0, 1, false, false, s0, p0) == Some((s1, p1, q2)));
    } else if pp.len() > 0 {
        assert(dec_metadata(b, q2, 0, false, true, s1, p1) == Some((s1, p1, q2)));
        assert(dec_metadata(b, q0, 1, false, false, s0, p0) == Some((s1, p1, q2)));
    } else {
        assert(dec_metadata(b, q0, 0, false, false, s0, p0) == Some((s1, p1, q2)));
    }
}

/// The protocol declaration reads back where it stands, among `count`
/// metadata instructions.
proof fn lemma_declaration_roundtrip(declare: Option<u32>, count: nat, b: Seq<u8>, pos: int)
    requires
        declare matches Some(v) ==> v == SUPPORTED_PROTOCOL && count > 0,
        0 <= pos,
        pos + enc_declaration(declare).len() <= b.len(),
        b.subrange(pos, pos + enc_declaration(declare).len()) == enc_declaration(declare),
    ensures
        dec_declaration(b, pos, count, declare is Some) == Some(
            (
                if declare is Some {
                    (count - 1) as nat
                } else {
                    count
                },
                pos + enc_declaration(declare).len(),
            ),
        ),
{
    if let Some(v) = declare {
        let i0 = varuint_bytes(METADATA_PROTOCOL as nat);
        let v0 = varuint_bytes(v as nat);
        lemma_split(b, pos, i0, v0);
        lemma_varuint_at(b, pos, METADATA_PROTOCOL as nat);
        lemma_varuint_at(b, pos + i0.len(), v as nat);
    }
}

/// The metadata reads back to the pools after the patches, the protocol
/// declaration where it is there.
proof fn lemma_metadata_roundtrip(
    declare: Option<u32>,
    sp: Seq<(u32, Seq<char>)>,
    pp: Seq<(u32, Seq<SegmentView>)>,
    s0: Map<u32, Seq<char>>,
    p0: Map<u32, Seq<SegmentView>>,
    s1: Map<u32, Seq<char>>,
    p1: Map<u32, Seq<SegmentView>>,
    b: Seq<u8>,
    pos: int,
)
    requires
        prepared(s0, p0, sp, pp, s1, p1),
        declare matches Some(v) ==> v == SUPPORTED_PROTOCOL,
        0 <= pos,
        pos + enc_metadata(declare, sp, pp, s1).len() <= b.len(),
        b.subrange(pos, pos + enc_metadata(declare, sp, pp, s1).len()) == enc_metadata(
            declare,
            sp,
            pp,
            s1,
        ),
    ensures
        ({
            let count = metadata_count(declare, sp, pp);
            let q = pos + varuint_bytes(count).len();
            let d = q + enc_declaration(declare).len();
            let m = metadata_count(None, sp, pp);
            &&& dec_varuint(b, pos) == Some((count, q))
            &&& dec_declaration(b, q, count, declare is Some) == Some((m, d))
            &&& dec_metadata(b, d, m, false, false, s0, p0) == Some(
                (s1, p1, pos + enc_metadata(declare, sp, pp, s1).len()),
            )
        }),
{
    let count = metadata_count(declare, sp, pp);
    let c = varuint_bytes(count);
    let dl = enc_declaration(declare);
    let body = strings_part(sp) + paths_part(pp, s1);
    assert(enc_metadata(declare, sp, pp, s1) =~= c + (dl + body));
    lemma_split(b, pos, c, dl + body);
    lemma_split(b, pos + c.len(), dl, body);
    lemma_varuint_at(b, pos, count);
    lemma_declaration_roundtrip(declare, count, b, pos + c.len());
    lemma_patches_roundtrip(sp, pp, s0, p0, s1, p1, b, pos + c.len() + dl.len());
}

/// Reading a message gives back what was written: for a consumer whose
/// pools are the producer's before the message, reading the bytes that
/// encoding wrote gives the same actions, and leaves the consumer's pools
/// equal to the producer's after the message. A message that declares the
/// supported protocol reads as a stream's first one; one that declares
/// nothing, as a later one.
pub proof fn lemma_message_roundtrip(
    declare: Option<u32>,
    acts: Seq<ActionView>,
    sp: Seq<(u32, Seq<char>)>,
    pp: Seq<(u32, Seq<SegmentView>)>,
    s0: Map<u32, Seq<char>>,
    p0: Map<u32, Seq<SegmentView>>,
    s1: Map<u32, Seq<char>>,
    p1: Map<u32, Seq<SegmentView>>,
)
    requires
        prepared(s0, p0, sp, pp, s1, p1),
        actions_ready(acts, p1),
        declare matches Some(v) ==> v == SUPPORTED_PROTOCOL,
    ensures
        dec_message(enc_message(declare, acts, sp, pp, s1, p1), declare is Some, s0, p0) == Some(
            (acts, s1, p1),
        ),
{
    let b = enc_message(declare, acts, sp, pp, s1, p1);
    let meta = enc_metadata(declare, sp, pp, s1);
    let n = varuint_bytes(acts.len());
    let body = enc_actions(acts, s1, p1);
    assert(b =~= meta + (n + body));
    assert(b.subrange(0, b.len() as int) =~= b);
    lemma_split(b, 0, meta, n + body);
    lemma_split(b, meta.len() as int, n, body);
    lemma_metadata_roundtrip(declare, sp, pp, s0, p0, s1, p1, b, 0);
    lemma_varuint_at(b, meta.len() as int, acts.len());
    lemma_actions_roundtrip(acts, s1, p1, b, (meta.len() + n.len()) as int);
}

} // verus!
