//! The packed message around its values: pool patches, path definitions and
//! actions, stated as functions on byte sequences.

use vstd::prelude::*;

use super::format::{dec_value, enc_value, fits, pooled_key};
use crate::patch::{ActionView, SegmentView};
use crate::protocol::consts::{
    ACTION_ADD, ACTION_COPY, ACTION_DELETE, ACTION_REPLACE, ACTION_SNAPSHOT, DEFAULT_ACTIONS_LIMIT,
    METADATA_PATHS, METADATA_PROTOCOL, METADATA_STRINGS, SUPPORTED_PROTOCOL,
};
use crate::protocol::layout::path_ref_shorter;
use crate::protocol::varuint::{varuint_bytes, varuint_parse, VarScan};
use crate::state::consumer_state::patched;
use crate::state::{
    PATH_KEY_BYTES_LIMIT, PATH_PATCH_BYTES_LIMIT, PATH_POOL_CAPACITY, PATH_SEGMENTS_LIMIT,
    STRING_POOL_CAPACITY,
};
use crate::protocol::preparation::{definitions_len, distinct_keys, path_valid};
use crate::value::{canonical, key_bytes, ValueView};

verus! {

/// A segment of a path definition: a key as a pool reference tagged `0b10`
/// where that is strictly shorter, else as its byte length tagged `0b00` and
/// its bytes; an index tagged `0b01`.
pub open spec fn enc_segment(seg: SegmentView, strings: Map<u32, Seq<char>>) -> Seq<u8> {
    match seg {
        SegmentView::Key(k) => {
            let kb = key_bytes(k);
            let literal = varuint_bytes(kb.len() * 4) + kb;
            match pooled_key(strings, k) {
                Some(x) => if path_ref_shorter(kb.len(), x as nat) {
                    varuint_bytes(x as nat * 4 + 2)
                } else {
                    literal
                },
                None => literal,
            }
        },
        SegmentView::Index(i) => varuint_bytes(i * 4 + 1),
    }
}

/// Law: a key segment of a path definition is written as the shorter of
/// its literal and, when the key is pooled, its pool reference; on a tie the
/// literal is kept, and an unpooled key is always literal.
pub proof fn lemma_segment_shortest(k: Seq<char>, strings: Map<u32, Seq<char>>)
    ensures
        ({
            let kb = key_bytes(k);
            let lit = varuint_bytes(kb.len() * 4) + kb;
            match pooled_key(strings, k) {
                Some(x) => {
                    let r = varuint_bytes(x as nat * 4 + 2);
                    enc_segment(SegmentView::Key(k), strings) == if r.len() < lit.len() {
                        r
                    } else {
                        lit
                    }
                },
                None => enc_segment(SegmentView::Key(k), strings) == lit,
            }
        }),
{
}

/// The segments of a path definition, one after the other.
pub open spec fn enc_segments(segs: Seq<SegmentView>, strings: Map<u32, Seq<char>>) -> Seq<u8>
    decreases segs.len(),
{
    if segs.len() == 0 {
        Seq::empty()
    } else {
        enc_segments(segs.drop_last(), strings) + enc_segment(segs.last(), strings)
    }
}

/// A path definition: the number of segments, then the segments.
pub open spec fn enc_path(p: Seq<SegmentView>, strings: Map<u32, Seq<char>>) -> Seq<u8> {
    varuint_bytes(p.len()) + enc_segments(p, strings)
}

/// The entries of a string pool patch: key, byte length, bytes.
pub open spec fn enc_string_entries(patch: Seq<(u32, Seq<char>)>) -> Seq<u8>
    decreases patch.len(),
{
    if patch.len() == 0 {
        Seq::empty()
    } else {
        let e = patch.last();
        enc_string_entries(patch.drop_last()) + varuint_bytes(e.0 as nat) + varuint_bytes(
            key_bytes(e.1).len(),
        ) + key_bytes(e.1)
    }
}

/// The entries of a path pool patch: key, definition.
pub open spec fn enc_path_entries(
    patch: Seq<(u32, Seq<SegmentView>)>,
    strings: Map<u32, Seq<char>>,
) -> Seq<u8>
    decreases patch.len(),
{
    if patch.len() == 0 {
        Seq::empty()
    } else {
        let e = patch.last();
        enc_path_entries(patch.drop_last(), strings) + varuint_bytes(e.0 as nat) + enc_path(
            e.1,
            strings,
        )
    }
}

/// The protocol declaration instruction, where a version is declared.
pub open spec fn enc_declaration(declare: Option<u32>) -> Seq<u8> {
    match declare {
        Some(v) => varuint_bytes(METADATA_PROTOCOL as nat) + varuint_bytes(v as nat),
        None => Seq::empty(),
    }
}

/// The number of metadata instructions.
pub open spec fn metadata_count(
    declare: Option<u32>,
    sp: Seq<(u32, Seq<char>)>,
    pp: Seq<(u32, Seq<SegmentView>)>,
) -> nat {
    (if declare is Some {
        1nat
    } else {
        0nat
    }) + (if sp.len() > 0 {
        1nat
    } else {
        0nat
    }) + (if pp.len() > 0 {
        1nat
    } else {
        0nat
    })
}

/// The metadata: the number of instructions, then the protocol declaration
/// where a version is declared, then the string pool patch and the path
/// pool patch, each only when it is not empty.
pub open spec fn enc_metadata(
    declare: Option<u32>,
    sp: Seq<(u32, Seq<char>)>,
    pp: Seq<(u32, Seq<SegmentView>)>,
    strings: Map<u32, Seq<char>>,
) -> Seq<u8> {
    varuint_bytes(metadata_count(declare, sp, pp)) + enc_declaration(declare) + (if sp.len() > 0 {
        varuint_bytes(METADATA_STRINGS as nat) + varuint_bytes(sp.len()) + enc_string_entries(sp)
    } else {
        Seq::empty()
    }) + (if pp.len() > 0 {
        varuint_bytes(METADATA_PATHS as nat) + varuint_bytes(pp.len()) + enc_path_entries(
            pp,
            strings,
        )
    } else {
        Seq::empty()
    })
}

/// The tag of an action.
pub open spec fn action_code(a: ActionView) -> u8 {
    match a {
        ActionView::Snapshot(_) => ACTION_SNAPSHOT,
        ActionView::Add(_, _) => ACTION_ADD,
        ActionView::Replace(_, _) => ACTION_REPLACE,
        ActionView::Delete(_) => ACTION_DELETE,
        ActionView::Copy(_, _) => ACTION_COPY,
    }
}

/// A path by its pool key.
pub open spec fn enc_path_ref(p: Seq<SegmentView>, paths: Map<u32, Seq<SegmentView>>) -> Seq<u8> {
    match pooled_key(paths, p) {
        Some(k) => varuint_bytes(k as nat),
        None => Seq::empty(),
    }
}

/// An action: its tag, then its paths by key and its value.
pub open spec fn enc_action(
    a: ActionView,
    strings: Map<u32, Seq<char>>,
    paths: Map<u32, Seq<SegmentView>>,
) -> Seq<u8> {
    varuint_bytes(action_code(a) as nat) + match a {
        ActionView::Snapshot(v) => enc_value(v, strings),
        ActionView::Add(p, v) => enc_path_ref(p, paths) + enc_value(v, strings),
        ActionView::Replace(p, v) => enc_path_ref(p, paths) + enc_value(v, strings),
        ActionView::Delete(p) => enc_path_ref(p, paths),
        ActionView::Copy(p, f) => enc_path_ref(p, paths) + enc_path_ref(f, paths),
    }
}

/// The actions, one after the other.
pub open spec fn enc_actions(
    acts: Seq<ActionView>,
    strings: Map<u32, Seq<char>>,
    paths: Map<u32, Seq<SegmentView>>,
) -> Seq<u8>
    decreases acts.len(),
{
    if acts.len() == 0 {
        Seq::empty()
    } else {
        enc_actions(acts.drop_last(), strings, paths) + enc_action(acts.last(), strings, paths)
    }
}

/// A whole message, given the protocol it declares (if any), the patches it
/// defines and the pools after them.
pub open spec fn enc_message(
    declare: Option<u32>,
    acts: Seq<ActionView>,
    sp: Seq<(u32, Seq<char>)>,
    pp: Seq<(u32, Seq<SegmentView>)>,
    strings: Map<u32, Seq<char>>,
    paths: Map<u32, Seq<SegmentView>>,
) -> Seq<u8> {
    enc_metadata(declare, sp, pp, strings) + varuint_bytes(acts.len()) + enc_actions(
        acts,
        strings,
        paths,
    )
}

/// Reads a variable-length integer at `pos`: it and the position after it.
pub open spec fn dec_varuint(b: Seq<u8>, pos: int) -> Option<(nat, int)> {
    if pos < 0 || pos > b.len() {
        None
    } else {
        match varuint_parse(b.skip(pos)) {
            VarScan::Value(v, n) => Some((v as nat, pos + n)),
            _ => None,
        }
    }
}

/// Reads `n` path segments from `pos`, with `budget` bytes left for literal
/// keys.
pub open spec fn dec_segments(
    b: Seq<u8>,
    pos: int,
    n: nat,
    budget: nat,
    strings: Map<u32, Seq<char>>,
) -> Option<(Seq<SegmentView>, int)>
    decreases n,
{
    if n == 0 {
        Some((Seq::empty(), pos))
    } else {
        match dec_varuint(b, pos) {
            Some((x, p2)) => {
                let payload = x / 4;
                let seg_end: Option<(SegmentView, int, nat)> = if x % 4 == 0 {
                    if payload > budget || p2 + payload > b.len() || !vstd::utf8::valid_utf8(
                        b.subrange(p2, p2 + payload),
                    ) {
                        None
                    } else {
                        Some(
                            (
                                SegmentView::Key(
                                    vstd::utf8::decode_utf8(b.subrange(p2, p2 + payload)),
                                ),
                                p2 + payload,
                                (budget - payload) as nat,
                            ),
                        )
                    }
                } else if x % 4 == 1 {
                    if payload > usize::MAX {
                        None
                    } else {
                        Some((SegmentView::Index(payload), p2, budget))
                    }
                } else if x % 4 == 2 {
                    if payload <= u32::MAX && strings.contains_key(payload as u32) {
                        Some((SegmentView::Key(strings[payload as u32]), p2, budget))
                    } else {
                        None
                    }
                } else {
                    None
                };
                match seg_end {
                    Some((seg, p3, budget2)) => match dec_segments(
                        b,
                        p3,
                        (n - 1) as nat,
                        budget2,
                        strings,
                    ) {
                        Some((segs, end)) => Some((seq![seg] + segs, end)),
                        None => None,
                    },
                    None => None,
                }
            },
            None => None,
        }
    }
}

/// Reads a path definition at `pos` of `b`.
pub open spec fn dec_path(b: Seq<u8>, pos: int, strings: Map<u32, Seq<char>>) -> Option<
    (Seq<SegmentView>, int),
> {
    match dec_varuint(b, pos) {
        Some((n, p2)) => if n > PATH_SEGMENTS_LIMIT {
            None
        } else {
            dec_segments(b, p2, n, PATH_KEY_BYTES_LIMIT as nat, strings)
        },
        None => None,
    }
}

/// Reads `n` string pool patch entries from `pos`; `seen` holds the keys
/// read so far.
pub open spec fn dec_string_entries(b: Seq<u8>, pos: int, n: nat, seen: Set<nat>) -> Option<
    (Seq<(u32, Seq<char>)>, int),
>
    decreases n,
{
    if n == 0 {
        Some((Seq::empty(), pos))
    } else {
        match dec_varuint(b, pos) {
            Some((k, p2)) => if k > u32::MAX || k >= STRING_POOL_CAPACITY || seen.contains(k) {
                None
            } else {
                match dec_varuint(b, p2) {
                    Some((len, p3)) => if p3 + len > b.len() || !vstd::utf8::valid_utf8(
                        b.subrange(p3, p3 + len),
                    ) {
                        None
                    } else {
                        match dec_string_entries(b, p3 + len, (n - 1) as nat, seen.insert(k)) {
                            Some((rest, end)) => Some(
                                (
                                    seq![
                                        (k as u32, vstd::utf8::decode_utf8(
                                            b.subrange(p3, p3 + len),
                                        )),
                                    ] + rest,
                                    end,
                                ),
                            ),
                            None => None,
                        }
                    },
                    None => None,
                }
            },
            None => None,
        }
    }
}

/// Reads `n` path pool patch entries from `pos`, each definition inside the
/// `remaining` bytes allowed for definitions; `seen` holds the keys read so
/// far.
pub open spec fn dec_path_entries(
    b: Seq<u8>,
    pos: int,
    n: nat,
    remaining: nat,
    seen: Set<nat>,
    strings: Map<u32, Seq<char>>,
) -> Option<(Seq<(u32, Seq<SegmentView>)>, int)>
    decreases n,
{
    if n == 0 {
        Some((Seq::empty(), pos))
    } else {
        match dec_varuint(b, pos) {
            Some((k, p2)) => if k >= PATH_POOL_CAPACITY || seen.contains(k) {
                None
            } else {
                let window_end = if b.len() - p2 < remaining {
                    b.len() as int
                } else {
                    p2 + remaining
                };
                match dec_path(b.subrange(0, window_end), p2, strings) {
                    Some((path, p3)) => match dec_path_entries(
                        b,
                        p3,
                        (n - 1) as nat,
                        (remaining - (p3 - p2)) as nat,
                        seen.insert(k),
                        strings,
                    ) {
                        Some((rest, end)) => Some((seq![(k as u32, path)] + rest, end)),
                        None => None,
                    },
                    None => None,
                }
            },
            None => None,
        }
    }
}

/// The pools after reading `m` metadata instructions from `pos`, and the
/// position after them; each instruction may come once.
pub open spec fn dec_metadata(
    b: Seq<u8>,
    pos: int,
    m: nat,
    seen_strings: bool,
    seen_paths: bool,
    strings: Map<u32, Seq<char>>,
    paths: Map<u32, Seq<SegmentView>>,
) -> Option<(Map<u32, Seq<char>>, Map<u32, Seq<SegmentView>>, int)>
    decreases m,
{
    if m == 0 {
        Some((strings, paths, pos))
    } else {
        match dec_varuint(b, pos) {
            Some((ins, p2)) => if ins == METADATA_STRINGS && !seen_strings {
                match dec_varuint(b, p2) {
                    Some((n, p3)) => if n > STRING_POOL_CAPACITY {
                        None
                    } else {
                        match dec_string_entries(b, p3, n, Set::empty()) {
                            Some((patch, p4)) => dec_metadata(
                                b,
                                p4,
                                (m - 1) as nat,
                                true,
                                seen_paths,
                                patched(strings, patch),
                                paths,
                            ),
                            None => None,
                        }
                    },
                    None => None,
                }
            } else if ins == METADATA_PATHS && !seen_paths {
                match dec_varuint(b, p2) {
                    Some((n, p3)) => if n > PATH_POOL_CAPACITY {
                        None
                    } else {
                        match dec_path_entries(
                            b,
                            p3,
                            n,
                            PATH_PATCH_BYTES_LIMIT as nat,
                            Set::empty(),
                            strings,
                        ) {
                            Some((patch, p4)) => dec_metadata(
                                b,
                                p4,
                                (m - 1) as nat,
                                seen_strings,
                                true,
                                strings,
                                patched(paths, patch),
                            ),
                            None => None,
                        }
                    },
                    None => None,
                }
            } else {
                None
            },
            None => None,
        }
    }
}

/// Reads a path by its pool key at `pos`.
pub open spec fn dec_path_ref(b: Seq<u8>, pos: int, paths: Map<u32, Seq<SegmentView>>) -> Option<
    (Seq<SegmentView>, int),
> {
    match dec_varuint(b, pos) {
        Some((k, p2)) => if k < PATH_POOL_CAPACITY && paths.contains_key(k as u32) {
            Some((paths[k as u32], p2))
        } else {
            None
        },
        None => None,
    }
}

/// Reads the action at `pos`; the tag is taken modulo 256.
pub open spec fn dec_action(
    b: Seq<u8>,
    pos: int,
    strings: Map<u32, Seq<char>>,
    paths: Map<u32, Seq<SegmentView>>,
) -> Option<(ActionView, int)> {
    match dec_varuint(b, pos) {
        Some((t, p2)) => {
            let code = t % 256;
            if code == ACTION_SNAPSHOT {
                match dec_value(b, p2, strings) {
                    Some((v, e)) => Some((ActionView::Snapshot(v), e)),
                    None => None,
                }
            } else if code == ACTION_ADD || code == ACTION_REPLACE {
                match dec_path_ref(b, p2, paths) {
                    Some((p, p3)) => match dec_value(b, p3, strings) {
                        Some((v, e)) => Some(
                            (
                                if code == ACTION_ADD {
                                    ActionView::Add(p, v)
                                } else {
                                    ActionView::Replace(p, v)
                                },
                                e,
                            ),
                        ),
                        None => None,
                    },
                    None => None,
                }
            } else if code == ACTION_DELETE {
                match dec_path_ref(b, p2, paths) {
                    Some((p, e)) => Some((ActionView::Delete(p), e)),
                    None => None,
                }
            } else if code == ACTION_COPY {
                match dec_path_ref(b, p2, paths) {
                    Some((p, p3)) => match dec_path_ref(b, p3, paths) {
                        Some((f, e)) => Some((ActionView::Copy(p, f), e)),
                        None => None,
                    },
                    None => None,
                }
            } else {
                None
            }
        },
        None => None,
    }
}

/// Reads `n` actions from `pos`.
pub open spec fn dec_actions(
    b: Seq<u8>,
    pos: int,
    n: nat,
    strings: Map<u32, Seq<char>>,
    paths: Map<u32, Seq<SegmentView>>,
) -> Option<(Seq<ActionView>, int)>
    decreases n,
{
    if n == 0 {
        Some((Seq::empty(), pos))
    } else {
        match dec_action(b, pos, strings, paths) {
            Some((a, p2)) => match dec_actions(b, p2, (n - 1) as nat, strings, paths) {
                Some((rest, end)) => Some((seq![a] + rest, end)),
                None => None,
            },
            None => None,
        }
    }
}

/// Reads the protocol declaration at `pos`, among `m` metadata instructions:
/// on a stream's first message it leads them and declares the supported
/// version; the number of instructions left and the position after it.
/// Later messages declare nothing, so nothing is read.
pub open spec fn dec_declaration(b: Seq<u8>, pos: int, m: nat, first: bool) -> Option<(nat, int)> {
    if !first {
        Some((m, pos))
    } else if m == 0 {
        None
    } else {
        match dec_varuint(b, pos) {
            Some((ins, p2)) => if ins != METADATA_PROTOCOL {
                None
            } else {
                match dec_varuint(b, p2) {
                    Some((v, p3)) => if v == SUPPORTED_PROTOCOL {
                        Some(((m - 1) as nat, p3))
                    } else {
                        None
                    },
                    None => None,
                }
            },
            None => None,
        }
    }
}

/// Reads a whole message against the consumer's pools, the stream's first
/// one when `first` holds: the actions and the pools after its patches, or
/// nothing when the bytes are no valid message.
pub open spec fn dec_message(
    b: Seq<u8>,
    first: bool,
    strings: Map<u32, Seq<char>>,
    paths: Map<u32, Seq<SegmentView>>,
) -> Option<(Seq<ActionView>, Map<u32, Seq<char>>, Map<u32, Seq<SegmentView>>)> {
    match dec_varuint(b, 0) {
        Some((count, q)) => match dec_declaration(b, q, count, first) {
            Some((m, p1)) => match dec_metadata(b, p1, m, false, false, strings, paths) {
                Some((s2, q2, p2)) => match dec_varuint(b, p2) {
                    Some((n, p3)) => if n > DEFAULT_ACTIONS_LIMIT {
                        None
                    } else {
                        match dec_actions(b, p3, n, s2, q2) {
                            Some((acts, end)) => if end == b.len() {
                                Some((acts, s2, q2))
                            } else {
                                None
                            },
                            None => None,
                        }
                    },
                    None => None,
                },
                None => None,
            },
            None => None,
        },
        None => None,
    }
}

/// The values of an action.
pub open spec fn action_value(a: ActionView) -> Option<ValueView> {
    match a {
        ActionView::Snapshot(v) => Some(v),
        ActionView::Add(_, v) => Some(v),
        ActionView::Replace(_, v) => Some(v),
        _ => None,
    }
}

/// Whether the paths an action refers to are pooled in `paths`.
pub open spec fn action_paths_pooled(a: ActionView, paths: Map<u32, Seq<SegmentView>>) -> bool {
    match a {
        ActionView::Snapshot(_) => true,
        ActionView::Add(p, _) => pooled_key(paths, p) is Some,
        ActionView::Replace(p, _) => pooled_key(paths, p) is Some,
        ActionView::Delete(p) => pooled_key(paths, p) is Some,
        ActionView::Copy(p, f) => pooled_key(paths, p) is Some && pooled_key(paths, f) is Some,
    }
}

/// What encoding relies on of the patches: pools `s1` and `p1` are `s0` and
/// `p0` with the patches applied; each patch defines distinct keys below its
/// pool's capacity; and the path definitions are within their limits.
pub open spec fn prepared(
    s0: Map<u32, Seq<char>>,
    p0: Map<u32, Seq<SegmentView>>,
    sp: Seq<(u32, Seq<char>)>,
    pp: Seq<(u32, Seq<SegmentView>)>,
    s1: Map<u32, Seq<char>>,
    p1: Map<u32, Seq<SegmentView>>,
) -> bool {
    &&& s1 == patched(s0, sp)
    &&& p1 == patched(p0, pp)
    &&& distinct_keys(sp)
    &&& sp.len() <= STRING_POOL_CAPACITY
    &&& forall|i: int|
        0 <= i < sp.len() ==> (#[trigger] sp[i].0 as int) < STRING_POOL_CAPACITY && key_bytes(
            sp[i].1,
        ).len() < 0x1_0000_0000_0000_0000
    &&& distinct_keys(pp)
    &&& pp.len() <= PATH_POOL_CAPACITY
    &&& forall|i: int|
        0 <= i < pp.len() ==> (#[trigger] pp[i].0 as int) < PATH_POOL_CAPACITY && path_valid(
            pp[i].1,
        )
    &&& definitions_len(pp, s1) <= PATH_PATCH_BYTES_LIMIT
    &&& forall|k: u32| #[trigger] p1.contains_key(k) ==> (k as int) < PATH_POOL_CAPACITY
}

/// Whether the actions can be written against pools `s1` and `p1` and read
/// back: not too many, their paths pooled, their values within the limits.
pub open spec fn actions_ready(
    acts: Seq<ActionView>,
    paths: Map<u32, Seq<SegmentView>>,
) -> bool {
    &&& acts.len() <= DEFAULT_ACTIONS_LIMIT
    &&& forall|i: int|
        0 <= i < acts.len() ==> action_paths_pooled(#[trigger] acts[i], paths) && match action_value(
            acts[i],
        ) {
            Some(v) => canonical(v) && fits(v),
            None => true,
        }
}

} // verus!
