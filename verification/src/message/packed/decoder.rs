//! Reading packed messages.

use vstd::prelude::*;

use super::format::{dec_entries, dec_items, dec_key, dec_value};
use super::frame::{
    dec_action, dec_actions, dec_declaration, dec_message, dec_metadata, dec_path, dec_path_entries, dec_path_ref,
    dec_segments, dec_string_entries, dec_varuint,
};
use crate::patch::{Action, ActionView, Path, PathSegment, SegmentView};
use crate::protocol::consts::{
    ACTION_ADD, ACTION_COPY, ACTION_DELETE, ACTION_REPLACE, ACTION_SNAPSHOT, DEFAULT_ACTIONS_LIMIT,
    METADATA_PATHS, METADATA_PROTOCOL, METADATA_STRINGS, SUPPORTED_PROTOCOL,
};
use crate::state::consumer_state::{patched, path_patch_view, string_patch_view};
use crate::state::{
    PATH_KEY_BYTES_LIMIT, PATH_PATCH_BYTES_LIMIT, PATH_POOL_CAPACITY, PATH_SEGMENTS_LIMIT,
    STRING_POOL_CAPACITY,
};
use crate::error::{Error, ErrorKind, Result};
use crate::le::read_le;
use crate::protocol::consts::{
    FLOAT_BITS_64, FLOAT_FALSE, FLOAT_NULL, FLOAT_TRUE, TAG_ARRAY, TAG_BSTR, TAG_FLOAT, TAG_MAP,
    TAG_NEGINT, TAG_POSINT, TAG_TSTR, TAG_TSTR_REF,
};
use crate::protocol::layout::read_head;
use crate::protocol::varuint::{lemma_varuint_parse_len, read_varuint};
use crate::state::consumer_state::ConsumerStateTxn;
use crate::value::{entries_set, pairs_view, items_view, Value, ValueView};

verus! {

/// Calls `std::str::from_utf8`, which accepts exactly the bytes that are
/// valid UTF-8; the text is then the one they encode.
#[verifier::external_body]
fn utf8_text(bytes: &[u8]) -> (r: Option<String>)
    ensures
        match r {
            Some(s) => vstd::utf8::valid_utf8(bytes@) && s@ == vstd::utf8::decode_utf8(bytes@),
            None => !vstd::utf8::valid_utf8(bytes@),
        },
{
    match std::str::from_utf8(bytes) {
        Ok(s) => Some(s.to_string()),
        Err(_) => None,
    }
}

/// The result of reading `n` items, with the items `vs` read before them.
pub open spec fn after_items(vs: Seq<ValueView>, r: Option<(Seq<ValueView>, int)>) -> Option<
    (Seq<ValueView>, int),
> {
    match r {
        Some((rest, end)) => Some((vs + rest, end)),
        None => None,
    }
}

fn invalid(message: &'static str) -> (e: Error)
    ensures
        e.spec_kind() == ErrorKind::InvalidData,
{
    Error::new(ErrorKind::InvalidData, message)
}

/// Reads the map key at `pos`.
fn unpack_key(b: &[u8], pos: usize, state: &ConsumerStateTxn) -> (r: Result<(String, usize)>)
    requires
        pos <= b@.len(),
    ensures
        match dec_key(b@, pos as int, state.strings()) {
            Some((k, end)) => r matches Ok((s, e)) && s@ == k && e == end && pos < e <= b@.len(),
            None => r matches Err(err) && err.spec_kind() == ErrorKind::InvalidData,
        },
{
    let (x, next) = match read_varuint(b, pos) {
        Ok(v) => v,
        Err(e) => {
            return Err(e.with_context("unpack map key"));
        },
    };
    proof {
        lemma_varuint_parse_len(b@.skip(pos as int));
    }
    let payload = x / 4;
    if x % 4 == 0 {
        if payload > 0xFFFF_FFFF {
            return Err(invalid("map key too large"));
        }
        match state.get_string(payload as u32) {
            Some(s) => Ok((s.clone(), next)),
            None => Err(invalid("map key not found in string pool")),
        }
    } else if x % 4 == 1 {
        if payload > (b.len() - next) as u64 {
            return Err(invalid("unexpected end of value"));
        }
        let end = next + payload as usize;
        let bytes = vstd::slice::slice_subrange(b, next, end);
        match utf8_text(bytes) {
            Some(s) => Ok((s, end)),
            None => Err(invalid("invalid UTF-8 map key")),
        }
    } else {
        Err(invalid("invalid map key type"))
    }
}

/// Reads the value at `pos`: the value and the position after it.
pub fn unpack_value(b: &[u8], pos: usize, state: &ConsumerStateTxn) -> (r: Result<(Value, usize)>)
    requires
        pos <= b@.len(),
    ensures
        match dec_value(b@, pos as int, state.strings()) {
            Some((v, end)) => r matches Ok((x, e)) && x@ == v && e == end && pos < e <= b@.len(),
            None => r matches Err(err) && err.spec_kind() == ErrorKind::InvalidData,
        },
    decreases b@.len() - pos,
{
    if pos >= b.len() {
        return Err(invalid("unexpected end of value"));
    }
    let first = b[pos];
    let tag = first / 16;
    let p = first % 16;
    if tag == TAG_POSINT || tag == TAG_NEGINT {
        match read_head(b, pos) {
            Some((n, end)) => {
                if tag == TAG_POSINT {
                    Ok((Value::inner_posint(n), end))
                } else {
                    Ok((Value::inner_negint(n), end))
                }
            },
            None => Err(invalid("unexpected end of value")),
        }
    } else if tag == TAG_BSTR || tag == TAG_TSTR {
        let (n, start) = match read_head(b, pos) {
            Some(h) => h,
            None => {
                return Err(invalid("unexpected end of value"));
            },
        };
        if n > (b.len() - start) as u64 {
            return Err(invalid("unexpected end of value"));
        }
        let end = start + n as usize;
        let bytes = vstd::slice::slice_subrange(b, start, end);
        if tag == TAG_BSTR {
            Ok((Value::inner_bstr(vstd::slice::slice_to_vec(bytes)), end))
        } else {
            match utf8_text(bytes) {
                Some(s) => Ok((Value::inner_tstr(s), end)),
                None => Err(invalid("invalid UTF-8 text string")),
            }
        }
    } else if tag == TAG_TSTR_REF {
        let (k, end) = match read_head(b, pos) {
            Some(h) => h,
            None => {
                return Err(invalid("unexpected end of text string reference"));
            },
        };
        if k > 0xFFFF_FFFF {
            return Err(invalid("text string reference too large"));
        }
        match state.get_string(k as u32) {
            Some(s) => Ok((Value::inner_tstr(s.clone()), end)),
            None => Err(invalid("text string not found in string pool")),
        }
    } else if tag == TAG_ARRAY {
        let (n, start) = match read_head(b, pos) {
            Some(h) => h,
            None => {
                return Err(invalid("unexpected end of value"));
            },
        };
        let ghost pool = state.strings();
        let mut items: Vec<Value> = Vec::new();
        let mut cur = start;
        let mut i: u64 = 0;
        proof {
            assert(after_items(Seq::empty(), dec_items(b@, start as int, n as nat, pos as int, pool))
                == dec_items(b@, start as int, n as nat, pos as int, pool)) by {
                match dec_items(b@, start as int, n as nat, pos as int, pool) {
                    Some((rest, e)) => {
                        assert(Seq::<ValueView>::empty() + rest =~= rest);
                    },
                    None => {},
                }
            }
        }
        while i < n
            invariant
                pool == state.strings(),
                pos < cur <= b@.len(),
                i <= n,
                dec_items(b@, start as int, n as nat, pos as int, pool) is None ==> dec_value(
                    b@,
                    pos as int,
                    pool,
                ) is None,
                dec_items(b@, start as int, n as nat, pos as int, pool) == after_items(
                    items_view(items@),
                    dec_items(b@, cur as int, (n - i) as nat, pos as int, pool),
                ),
            decreases n - i,
        {
            let ghost done = items_view(items@);
            let (item, next) = match unpack_value(b, cur, state) {
                Ok(v) => v,
                Err(e) => {
                    proof {
                        assert(dec_items(b@, cur as int, (n - i) as nat, pos as int, pool) is None);
                    }
                    return Err(e.with_context("unpack array value"));
                },
            };
            proof {
                let tail = dec_items(b@, next as int, (n - i - 1) as nat, pos as int, pool);
                assert(dec_items(b@, cur as int, (n - i) as nat, pos as int, pool) == after_items(
                    seq![item@],
                    tail,
                ));
                match tail {
                    Some((rest, e)) => {
                        assert(done + (seq![item@] + rest) =~= items_view(items@.push(item)) + rest);
                    },
                    None => {},
                }
            }
            items.push(item);
            cur = next;
            i = i + 1;
        }
        proof {
            assert(items_view(items@) + Seq::<ValueView>::empty() =~= items_view(items@));
        }
        Ok((Value::inner_array(items), cur))
    } else if tag == TAG_MAP {
        let (n, start) = match read_head(b, pos) {
            Some(h) => h,
            None => {
                return Err(invalid("unexpected end of value"));
            },
        };
        let ghost pool = state.strings();
        let mut entries: Vec<(String, Value)> = Vec::new();
        let mut cur = start;
        let mut i: u64 = 0;
        proof {
            assert(pairs_view(entries@) =~= Seq::<(Seq<char>, ValueView)>::empty());
        }
        while i < n
            invariant
                pool == state.strings(),
                pos < cur <= b@.len(),
                i <= n,
                dec_entries(b@, start as int, n as nat, pos as int, Seq::empty(), pool) is None
                    ==> dec_value(b@, pos as int, pool) is None,
                crate::value::keys_ascending(pairs_view(entries@)),
                dec_entries(b@, start as int, n as nat, pos as int, Seq::empty(), pool)
                    == dec_entries(b@, cur as int, (n - i) as nat, pos as int, pairs_view(entries@), pool),
            decreases n - i,
        {
            let (key, after_key) = match unpack_key(b, cur, state) {
                Ok(k) => k,
                Err(e) => {
                    proof {
                        assert(dec_entries(b@, cur as int, (n - i) as nat, pos as int, pairs_view(entries@), pool) is None);
                    }
                    return Err(e);
                },
            };
            let (item, next) = match unpack_value(b, after_key, state) {
                Ok(v) => v,
                Err(e) => {
                    proof {
                        assert(dec_entries(b@, cur as int, (n - i) as nat, pos as int, pairs_view(entries@), pool) is None);
                    }
                    return Err(e.with_context("unpack map value"));
                },
            };
            let ghost acc = pairs_view(entries@);
            let ghost kv = key@;
            if entries_set(&mut entries, key, item) {
                proof {
                    assert(dec_entries(b@, cur as int, (n - i) as nat, pos as int, acc, pool) is None);
                }
                return Err(invalid("duplicate map key"));
            }
            cur = next;
            i = i + 1;
        }
        Ok((Value::inner_map(entries), cur))
    } else if tag == TAG_FLOAT {
        if p == FLOAT_FALSE {
            Ok((Value::inner_bool(false), pos + 1))
        } else if p == FLOAT_TRUE {
            Ok((Value::inner_bool(true), pos + 1))
        } else if p == FLOAT_NULL {
            Ok((Value::inner_null(), pos + 1))
        } else if p == FLOAT_BITS_64 {
            if b.len() - pos < 9 {
                return Err(invalid("unexpected end of value"));
            }
            let bits = read_le(b, pos + 1, 8);
            Ok((Value::inner_float(bits), pos + 9))
        } else {
            Err(invalid("invalid simple value or float"))
        }
    } else {
        Err(invalid("invalid value type"))
    }
}

/// `n` flags, all clear.
fn clear_flags(n: usize) -> (v: Vec<bool>)
    ensures
        v@.len() == n,
        forall|i: int| 0 <= i < n ==> !#[trigger] v@[i],
{
    let mut v: Vec<bool> = Vec::new();
    while v.len() < n
        invariant
            v@.len() <= n,
            forall|i: int| 0 <= i < v@.len() ==> !#[trigger] v@[i],
        decreases n - v@.len(),
    {
        v.push(false);
    }
    v
}

/// The result of reading segments, with the segments `done` read before.
pub open spec fn after_segments(done: Seq<SegmentView>, r: Option<(Seq<SegmentView>, int)>) -> Option<
    (Seq<SegmentView>, int),
> {
    match r {
        Some((rest, end)) => Some((done + rest, end)),
        None => None,
    }
}

/// Reads the path definition at `pos`.
fn unpack_path(b: &[u8], pos: usize, state: &ConsumerStateTxn) -> (r: Result<(Path, usize)>)
    requires
        pos <= b@.len(),
    ensures
        match dec_path(b@, pos as int, state.strings()) {
            Some((p, end)) => r matches Ok((x, e)) && x@ == p && e == end && pos < e <= b@.len(),
            None => r matches Err(err) && err.spec_kind() == ErrorKind::InvalidData,
        },
{
    let (n, start) = read_varuint(b, pos)?;
    proof {
        lemma_varuint_parse_len(b@.skip(pos as int));
    }
    if n > PATH_SEGMENTS_LIMIT as u64 {
        return Err(invalid("too many path segments"));
    }
    let ghost strings = state.strings();
    let mut budget: usize = PATH_KEY_BYTES_LIMIT;
    let mut segments: Vec<PathSegment> = Vec::new();
    let mut cur = start;
    let mut i: u64 = 0;
    proof {
        let r0 = dec_segments(b@, start as int, n as nat, budget as nat, strings);
        match r0 {
            Some((rest, e)) => {
                assert(Seq::<SegmentView>::empty() + rest =~= rest);
            },
            None => {},
        }
        assert(segments@.map_values(|x: PathSegment| x@) =~= Seq::<SegmentView>::empty());
    }
    while i < n
        invariant
            strings == state.strings(),
            pos < start <= cur <= b@.len(),
            i <= n,
            dec_path(b@, pos as int, strings) == dec_segments(
                b@,
                start as int,
                n as nat,
                PATH_KEY_BYTES_LIMIT as nat,
                strings,
            ),
            dec_segments(b@, start as int, n as nat, PATH_KEY_BYTES_LIMIT as nat, strings)
                == after_segments(
                segments@.map_values(|x: PathSegment| x@),
                dec_segments(b@, cur as int, (n - i) as nat, budget as nat, strings),
            ),
        decreases n - i,
    {
        let ghost done = segments@.map_values(|x: PathSegment| x@);
        let ghost budget0 = budget;
        let (x, p2) = match read_varuint(b, cur) {
            Ok(v) => v,
            Err(e) => {
                return Err(e.with_context("unpack path segment"));
            },
        };
        proof {
            lemma_varuint_parse_len(b@.skip(cur as int));
        }
        let payload = x / 4;
        let tag = x % 4;
        let seg: PathSegment;
        let mut next = p2;
        if tag == 0 {
            if payload > budget as u64 {
                return Err(invalid("path keys too large"));
            }
            if payload > (b.len() - p2) as u64 {
                return Err(invalid("unexpected end of path"));
            }
            let end = p2 + payload as usize;
            match utf8_text(vstd::slice::slice_subrange(b, p2, end)) {
                Some(k) => {
                    seg = PathSegment::Key(k);
                },
                None => {
                    return Err(invalid("invalid UTF-8 path key"));
                },
            }
            budget = budget - payload as usize;
            next = end;
        } else if tag == 1 {
            if payload > usize::MAX as u64 {
                return Err(invalid("path index too large"));
            }
            seg = PathSegment::Index(payload as usize);
        } else if tag == 2 {
            if payload > 0xFFFF_FFFF {
                return Err(invalid("path key reference too large"));
            }
            match state.get_string(payload as u32) {
                Some(k) => {
                    seg = PathSegment::Key(k.clone());
                },
                None => {
                    return Err(invalid("path key not found in string pool"));
                },
            }
        } else {
            return Err(invalid("invalid path segment type"));
        }
        proof {
            let tail = dec_segments(b@, next as int, (n - i - 1) as nat, budget as nat, strings);
            assert(dec_segments(b@, cur as int, (n - i) as nat, budget0 as nat, strings)
                == after_segments(seq![seg@], tail));
            match tail {
                Some((rest, e)) => {
                    assert(done + (seq![seg@] + rest) =~= done.push(seg@) + rest);
                },
                None => {},
            }
            assert(segments@.push(seg).map_values(|x: PathSegment| x@) =~= done.push(seg@));
        }
        segments.push(seg);
        cur = next;
        i = i + 1;
    }
    proof {
        assert(segments@.map_values(|x: PathSegment| x@) + Seq::<SegmentView>::empty()
            =~= segments@.map_values(|x: PathSegment| x@));
    }
    Ok((Path::new(segments), cur))
}

/// The result of reading string patch entries, with the entries `done` read
/// before.
pub open spec fn after_strings(
    done: Seq<(u32, Seq<char>)>,
    r: Option<(Seq<(u32, Seq<char>)>, int)>,
) -> Option<(Seq<(u32, Seq<char>)>, int)> {
    match r {
        Some((rest, end)) => Some((done + rest, end)),
        None => None,
    }
}

/// Reads `n` string pool patch entries at `pos`.
fn unpack_string_entries(b: &[u8], pos: usize, n: u64) -> (r: Result<(Vec<(u32, String)>, usize)>)
    requires
        pos <= b@.len(),
    ensures
        match dec_string_entries(b@, pos as int, n as nat, Set::empty()) {
            Some((patch, end)) => r matches Ok((v, e)) && string_patch_view(v@) == patch && e == end
                && pos <= e <= b@.len(),
            None => r matches Err(err) && err.spec_kind() == ErrorKind::InvalidData,
        },
{
    let mut seen = clear_flags(STRING_POOL_CAPACITY);
    let ghost mut seen_set: Set<nat> = Set::empty();
    let mut patch: Vec<(u32, String)> = Vec::new();
    let mut cur = pos;
    let mut i: u64 = 0;
    proof {
        match dec_string_entries(b@, pos as int, n as nat, Set::empty()) {
            Some((rest, e)) => {
                assert(Seq::<(u32, Seq<char>)>::empty() + rest =~= rest);
            },
            None => {},
        }
        assert(string_patch_view(patch@) =~= Seq::<(u32, Seq<char>)>::empty());
    }
    while i < n
        invariant
            pos <= cur <= b@.len(),
            i <= n,
            seen@.len() == STRING_POOL_CAPACITY,
            forall|k: int| 0 <= k < STRING_POOL_CAPACITY ==> #[trigger] seen@[k] == seen_set.contains(
                k as nat,
            ),
            dec_string_entries(b@, pos as int, n as nat, Set::empty()) == after_strings(
                string_patch_view(patch@),
                dec_string_entries(b@, cur as int, (n - i) as nat, seen_set),
            ),
        decreases n - i,
    {
        let ghost done = string_patch_view(patch@);
        let (key, p2) = match read_varuint(b, cur) {
            Ok(v) => v,
            Err(e) => {
                return Err(e.with_context("unpack string pool key"));
            },
        };
        proof {
            lemma_varuint_parse_len(b@.skip(cur as int));
        }
        if key > 0xFFFF_FFFF {
            return Err(invalid("string pool key too large"));
        }
        if key >= STRING_POOL_CAPACITY as u64 || seen[key as usize] {
            return Err(invalid("invalid or duplicate string pool key"));
        }
        let (len, p3) = match read_varuint(b, p2) {
            Ok(v) => v,
            Err(e) => {
                return Err(e.with_context("unpack string pool value length"));
            },
        };
        proof {
            lemma_varuint_parse_len(b@.skip(p2 as int));
        }
        if len > (b.len() - p3) as u64 {
            return Err(invalid("unexpected end of string pool patch"));
        }
        let end = p3 + len as usize;
        let text = match utf8_text(vstd::slice::slice_subrange(b, p3, end)) {
            Some(t) => t,
            None => {
                return Err(invalid("invalid UTF-8 string pool value"));
            },
        };
        proof {
            let tail = dec_string_entries(
                b@,
                end as int,
                (n - i - 1) as nat,
                seen_set.insert(key as nat),
            );
            assert(dec_string_entries(b@, cur as int, (n - i) as nat, seen_set) == after_strings(
                seq![(key as u32, text@)],
                tail,
            ));
            match tail {
                Some((rest, e)) => {
                    assert(done + (seq![(key as u32, text@)] + rest) =~= done.push(
                        (key as u32, text@),
                    ) + rest);
                },
                None => {},
            }
            assert(string_patch_view(patch@.push((key as u32, text))) =~= done.push(
                (key as u32, text@),
            ));
        }
        seen.set(key as usize, true);
        proof {
            seen_set = seen_set.insert(key as nat);
        }
        patch.push((key as u32, text));
        cur = end;
        i = i + 1;
    }
    proof {
        assert(string_patch_view(patch@) + Seq::<(u32, Seq<char>)>::empty() =~= string_patch_view(
            patch@,
        ));
    }
    Ok((patch, cur))
}

/// The result of reading path patch entries, with the entries `done` read
/// before.
pub open spec fn after_paths(
    done: Seq<(u32, Seq<SegmentView>)>,
    r: Option<(Seq<(u32, Seq<SegmentView>)>, int)>,
) -> Option<(Seq<(u32, Seq<SegmentView>)>, int)> {
    match r {
        Some((rest, end)) => Some((done + rest, end)),
        None => None,
    }
}

/// Reads `n` path pool patch entries at `pos`.
fn unpack_path_entries(b: &[u8], pos: usize, n: u64, state: &ConsumerStateTxn) -> (r: Result<
    (Vec<(u32, Path)>, usize),
>)
    requires
        pos <= b@.len(),
    ensures
        match dec_path_entries(
            b@,
            pos as int,
            n as nat,
            PATH_PATCH_BYTES_LIMIT as nat,
            Set::empty(),
            state.strings(),
        ) {
            Some((patch, end)) => r matches Ok((v, e)) && path_patch_view(v@) == patch && e == end
                && pos <= e <= b@.len(),
            None => r matches Err(err) && err.spec_kind() == ErrorKind::InvalidData,
        },
{
    let ghost strings = state.strings();
    let mut seen = clear_flags(PATH_POOL_CAPACITY);
    let ghost mut seen_set: Set<nat> = Set::empty();
    let mut patch: Vec<(u32, Path)> = Vec::new();
    let mut remaining: usize = PATH_PATCH_BYTES_LIMIT;
    let mut cur = pos;
    let mut i: u64 = 0;
    proof {
        match dec_path_entries(b@, pos as int, n as nat, remaining as nat, Set::empty(), strings) {
            Some((rest, e)) => {
                assert(Seq::<(u32, Seq<SegmentView>)>::empty() + rest =~= rest);
            },
            None => {},
        }
        assert(path_patch_view(patch@) =~= Seq::<(u32, Seq<SegmentView>)>::empty());
    }
    while i < n
        invariant
            strings == state.strings(),
            pos <= cur <= b@.len(),
            i <= n,
            seen@.len() == PATH_POOL_CAPACITY,
            forall|k: int| 0 <= k < PATH_POOL_CAPACITY ==> #[trigger] seen@[k] == seen_set.contains(
                k as nat,
            ),
            dec_path_entries(
                b@,
                pos as int,
                n as nat,
                PATH_PATCH_BYTES_LIMIT as nat,
                Set::empty(),
                strings,
            ) == after_paths(
                path_patch_view(patch@),
                dec_path_entries(b@, cur as int, (n - i) as nat, remaining as nat, seen_set, strings),
            ),
        decreases n - i,
    {
        let ghost done = path_patch_view(patch@);
        let (key, p2) = match read_varuint(b, cur) {
            Ok(v) => v,
            Err(e) => {
                return Err(e);
            },
        };
        proof {
            lemma_varuint_parse_len(b@.skip(cur as int));
        }
        if key >= PATH_POOL_CAPACITY as u64 || seen[key as usize] {
            return Err(invalid("invalid or duplicate path pool key"));
        }
        let window_end = if b.len() - p2 < remaining {
            b.len()
        } else {
            p2 + remaining
        };
        let window = vstd::slice::slice_subrange(b, 0, window_end);
        let (path, p3) = match unpack_path(window, p2, state) {
            Ok(v) => v,
            Err(e) => {
                return Err(e);
            },
        };
        proof {
            let tail = dec_path_entries(
                b@,
                p3 as int,
                (n - i - 1) as nat,
                (remaining - (p3 - p2)) as nat,
                seen_set.insert(key as nat),
                strings,
            );
            assert(dec_path_entries(b@, cur as int, (n - i) as nat, remaining as nat, seen_set, strings)
                == after_paths(seq![(key as u32, path@)], tail));
            match tail {
                Some((rest, e)) => {
                    assert(done + (seq![(key as u32, path@)] + rest) =~= done.push(
                        (key as u32, path@),
                    ) + rest);
                },
                None => {},
            }
            assert(path_patch_view(patch@.push((key as u32, path))) =~= done.push(
                (key as u32, path@),
            ));
        }
        remaining = remaining - (p3 - p2);
        seen.set(key as usize, true);
        proof {
            seen_set = seen_set.insert(key as nat);
        }
        patch.push((key as u32, path));
        cur = p3;
        i = i + 1;
    }
    proof {
        assert(path_patch_view(patch@) + Seq::<(u32, Seq<SegmentView>)>::empty() =~= path_patch_view(
            patch@,
        ));
    }
    Ok((patch, cur))
}

/// Reads the metadata instructions from `pos` and applies their patches:
/// the position after them.
fn unpack_metadata(b: &[u8], pos: usize, m: u64, state: &mut ConsumerStateTxn) -> (r: Result<usize>)
    requires
        old(state).wf(),
        pos <= b@.len(),
    ensures
        final(state).wf(),
        final(state).log_len() >= old(state).log_len(),
        forall|i: int| 0 <= i <= old(state).log_len() ==> final(state).saved(i) == old(state).saved(i),
        match dec_metadata(b@, pos as int, m as nat, false, false, old(state).strings(), old(state).paths()) {
            Some((s2, q2, end)) => r matches Ok(e) && e == end && final(state).strings() == s2
                && final(state).paths() == q2 && pos <= e <= b@.len(),
            None => r matches Err(err) && err.spec_kind() == ErrorKind::InvalidData,
        },
{
    let ghost s0 = state.strings();
    let ghost q0 = state.paths();
    let ghost log0 = state.log_len();
    let mut seen_strings = false;
    let mut seen_paths = false;
    let mut cur = pos;
    let mut index: u64 = 0;
    while index < m
        invariant
            state.wf(),
            pos <= cur <= b@.len(),
            index <= m,
            state.log_len() >= log0,
            log0 == old(state).log_len(),
            forall|i: int| 0 <= i <= log0 ==> state.saved(i) == old(state).saved(i),
            s0 == old(state).strings(),
            q0 == old(state).paths(),
            dec_metadata(b@, pos as int, m as nat, false, false, s0, q0) == dec_metadata(
                b@,
                cur as int,
                (m - index) as nat,
                seen_strings,
                seen_paths,
                state.strings(),
                state.paths(),
            ),
        decreases m - index,
    {
        let (instruction, p2) = match read_varuint(b, cur) {
            Ok(v) => v,
            Err(e) => {
                return Err(e.with_context("unpack metadata instruction"));
            },
        };
        proof {
            lemma_varuint_parse_len(b@.skip(cur as int));
        }
        if instruction == METADATA_STRINGS && !seen_strings {
            let (n, p3) = read_varuint(b, p2)?;
            proof {
                lemma_varuint_parse_len(b@.skip(p2 as int));
            }
            if n > STRING_POOL_CAPACITY as u64 {
                return Err(invalid("string pool patch too large"));
            }
            let (patch, p4) = match unpack_string_entries(b, p3, n) {
                Ok(v) => v,
                Err(e) => {
                    return Err(e.with_context("unpack string pool patch"));
                },
            };
            state.apply_string_pool_patch(patch);
            seen_strings = true;
            cur = p4;
        } else if instruction == METADATA_PATHS && !seen_paths {
            let (n, p3) = read_varuint(b, p2)?;
            proof {
                lemma_varuint_parse_len(b@.skip(p2 as int));
            }
            if n > PATH_POOL_CAPACITY as u64 {
                return Err(invalid("path pool patch too large"));
            }
            let (patch, p4) = match unpack_path_entries(b, p3, n, state) {
                Ok(v) => v,
                Err(e) => {
                    return Err(e.with_context("unpack path pool patch"));
                },
            };
            state.apply_path_pool_patch(patch);
            seen_paths = true;
            cur = p4;
        } else if instruction == METADATA_STRINGS || instruction == METADATA_PATHS {
            return Err(invalid("duplicate metadata instruction"));
        } else {
            return Err(invalid("invalid metadata instruction"));
        }
        index = index + 1;
    }
    Ok(cur)
}

/// Reads a path by its pool key at `pos`.
fn unpack_path_ref(b: &[u8], pos: usize, state: &ConsumerStateTxn) -> (r: Result<(Path, usize)>)
    requires
        pos <= b@.len(),
    ensures
        match dec_path_ref(b@, pos as int, state.paths()) {
            Some((p, end)) => r matches Ok((x, e)) && x@ == p && e == end && pos < e <= b@.len(),
            None => r matches Err(err) && err.spec_kind() == ErrorKind::InvalidData,
        },
{
    let (id, next) = read_varuint(b, pos)?;
    proof {
        lemma_varuint_parse_len(b@.skip(pos as int));
    }
    if id >= PATH_POOL_CAPACITY as u64 {
        return Err(invalid("path id out of range"));
    }
    match state.get_path(id as u32) {
        Some(p) => Ok((p.duplicate(), next)),
        None => Err(invalid("undefined path id")),
    }
}

/// Reads the action at `pos`.
fn unpack_action(b: &[u8], pos: usize, state: &ConsumerStateTxn) -> (r: Result<(Action, usize)>)
    requires
        pos <= b@.len(),
    ensures
        match dec_action(b@, pos as int, state.strings(), state.paths()) {
            Some((a, end)) => r matches Ok((x, e)) && x@ == a && e == end && pos < e <= b@.len(),
            None => r matches Err(err) && err.spec_kind() == ErrorKind::InvalidData,
        },
{
    let (t, p2) = read_varuint(b, pos)?;
    proof {
        lemma_varuint_parse_len(b@.skip(pos as int));
    }
    let code = (t % 256) as u8;
    if code == ACTION_SNAPSHOT {
        let (value, end) = unpack_value(b, p2, state)?;
        Ok((Action::Snapshot { value }, end))
    } else if code == ACTION_ADD || code == ACTION_REPLACE {
        let (path, p3) = unpack_path_ref(b, p2, state)?;
        let (value, end) = unpack_value(b, p3, state)?;
        if code == ACTION_ADD {
            Ok((Action::Add { path, value }, end))
        } else {
            Ok((Action::Replace { path, value }, end))
        }
    } else if code == ACTION_DELETE {
        let (path, end) = unpack_path_ref(b, p2, state)?;
        Ok((Action::Delete { path }, end))
    } else if code == ACTION_COPY {
        let (path, p3) = unpack_path_ref(b, p2, state)?;
        let (from, end) = unpack_path_ref(b, p3, state)?;
        Ok((Action::Copy { path, from }, end))
    } else {
        Err(invalid("invalid action type"))
    }
}

/// The result of reading actions, with the actions `done` read before.
pub open spec fn after_actions(done: Seq<ActionView>, r: Option<(Seq<ActionView>, int)>) -> Option<
    (Seq<ActionView>, int),
> {
    match r {
        Some((rest, end)) => Some((done + rest, end)),
        None => None,
    }
}

/// The views of actions.
pub open spec fn actions_view(s: Seq<Action>) -> Seq<ActionView> {
    s.map_values(|a: Action| a@)
}

/// Reads `n` actions at `pos`.
fn unpack_actions(b: &[u8], pos: usize, n: u64, state: &ConsumerStateTxn) -> (r: Result<
    (Vec<Action>, usize),
>)
    requires
        pos <= b@.len(),
    ensures
        match dec_actions(b@, pos as int, n as nat, state.strings(), state.paths()) {
            Some((acts, end)) => r matches Ok((v, e)) && actions_view(v@) == acts && e == end && pos
                <= e <= b@.len(),
            None => r matches Err(err) && err.spec_kind() == ErrorKind::InvalidData,
        },
{
    let ghost strings = state.strings();
    let ghost paths = state.paths();
    let mut actions: Vec<Action> = Vec::new();
    let mut cur = pos;
    let mut i: u64 = 0;
    proof {
        match dec_actions(b@, pos as int, n as nat, strings, paths) {
            Some((rest, e)) => {
                assert(Seq::<ActionView>::empty() + rest =~= rest);
            },
            None => {},
        }
        assert(actions_view(actions@) =~= Seq::<ActionView>::empty());
    }
    while i < n
        invariant
            strings == state.strings(),
            paths == state.paths(),
            pos <= cur <= b@.len(),
            i <= n,
            dec_actions(b@, pos as int, n as nat, strings, paths) == after_actions(
                actions_view(actions@),
                dec_actions(b@, cur as int, (n - i) as nat, strings, paths),
            ),
        decreases n - i,
    {
        let ghost done = actions_view(actions@);
        let (action, next) = match unpack_action(b, cur, state) {
            Ok(v) => v,
            Err(e) => {
                return Err(e);
            },
        };
        proof {
            let tail = dec_actions(b@, next as int, (n - i - 1) as nat, strings, paths);
            assert(dec_actions(b@, cur as int, (n - i) as nat, strings, paths) == after_actions(
                seq![action@],
                tail,
            ));
            match tail {
                Some((rest, e)) => {
                    assert(done + (seq![action@] + rest) =~= done.push(action@) + rest);
                },
                None => {},
            }
            assert(actions_view(actions@.push(action)) =~= done.push(action@));
        }
        actions.push(action);
        cur = next;
        i = i + 1;
    }
    proof {
        assert(actions_view(actions@) + Seq::<ActionView>::empty() =~= actions_view(actions@));
    }
    Ok((actions, cur))
}

/// Reads the protocol declaration at `pos`, among `m` metadata
/// instructions, where the message is a stream's first.
fn unpack_declaration(b: &[u8], pos: usize, m: u64, first: bool) -> (r: Result<(u64, usize)>)
    requires
        pos <= b@.len(),
    ensures
        match dec_declaration(b@, pos as int, m as nat, first) {
            Some((m2, end)) => r matches Ok((x, e)) && x == m2 && e == end && pos <= e <= b@.len(),
            None => r matches Err(err) && err.spec_kind() == ErrorKind::InvalidData,
        },
{
    if !first {
        return Ok((m, pos));
    }
    if m == 0 {
        return Err(invalid("missing protocol declaration"));
    }
    let (ins, p2) = read_varuint(b, pos)?;
    proof {
        lemma_varuint_parse_len(b@.skip(pos as int));
    }
    if ins != METADATA_PROTOCOL {
        return Err(invalid("missing protocol declaration"));
    }
    let (version, p3) = read_varuint(b, p2)?;
    proof {
        lemma_varuint_parse_len(b@.skip(p2 as int));
    }
    if version != SUPPORTED_PROTOCOL as u64 {
        return Err(invalid("unsupported protocol version"));
    }
    Ok((m - 1, p3))
}

fn unpack_message(b: &[u8], first: bool, state: &mut ConsumerStateTxn) -> (r: Result<Vec<Action>>)
    requires
        old(state).wf(),
    ensures
        final(state).wf(),
        final(state).log_len() >= old(state).log_len(),
        forall|i: int| 0 <= i <= old(state).log_len() ==> final(state).saved(i) == old(state).saved(i),
        match dec_message(b@, first, old(state).strings(), old(state).paths()) {
            Some((acts, s2, q2)) => r matches Ok(v) && actions_view(v@) == acts
                && final(state).strings() == s2 && final(state).paths() == q2,
            None => r matches Err(err) && err.spec_kind() == ErrorKind::InvalidData,
        },
{
    let (count, p0) = read_varuint(b, 0)?;
    proof {
        lemma_varuint_parse_len(b@.skip(0));
    }
    let (m, p1) = unpack_declaration(b, p0, count, first)?;
    let p2 = unpack_metadata(b, p1, m, state)?;
    let (n, p3) = read_varuint(b, p2)?;
    proof {
        lemma_varuint_parse_len(b@.skip(p2 as int));
    }
    if n > DEFAULT_ACTIONS_LIMIT as u64 {
        return Err(invalid("actions too large"));
    }
    let (actions, end) = unpack_actions(b, p3, n, state)?;
    if end != b.len() {
        return Err(invalid("unexpected trailing bytes"));
    }
    Ok(actions)
}

/// Reads a packed message against the consumer's pools, as a stream's first
/// message when `first` holds. On success the patches stay applied; on
/// failure the pools are as they were.
pub fn decode_message(b: &[u8], first: bool, state: &mut ConsumerStateTxn) -> (r: Result<Vec<Action>>)
    requires
        old(state).wf(),
    ensures
        final(state).wf(),
        forall|i: int| 0 <= i <= old(state).log_len() ==> final(state).saved(i) == old(state).saved(i),
        match dec_message(b@, first, old(state).strings(), old(state).paths()) {
            Some((acts, s2, q2)) => r matches Ok(v) && actions_view(v@) == acts
                && final(state).strings() == s2 && final(state).paths() == q2
                && final(state).log_len() >= old(state).log_len(),
            None => r matches Err(err) && err.spec_kind() == ErrorKind::InvalidData
                && final(state).strings() == old(state).strings() && final(state).paths() == old(
                state,
            ).paths() && final(state).log_len() == old(state).log_len(),
        },
{
    let savepoint = state.savepoint();
    match unpack_message(b, first, state) {
        Ok(actions) => Ok(actions),
        Err(e) => {
            state.rollback_to(savepoint);
            Err(e)
        },
    }
}

} // verus!
