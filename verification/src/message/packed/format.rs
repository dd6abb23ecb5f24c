//! The packed wire format, stated as functions on byte sequences: what the
//! encoder writes for a value, and what the decoder reads from bytes.

use vstd::prelude::*;

use crate::le::{le_bytes, le_value, lemma_le_roundtrip, lemma_pow256_values};
use crate::protocol::consts::{
    
    FLOAT_BITS_64, FLOAT_FALSE, FLOAT_NULL, FLOAT_TRUE, TAG_ARRAY, TAG_BSTR, TAG_FLOAT, TAG_MAP,
    TAG_NEGINT, TAG_POSINT, TAG_TSTR, TAG_TSTR_REF,
};
use crate::protocol::layout::{
    head_bytes, head_parse, lemma_head_len, lemma_head_roundtrip, ref_shorter,
};
use crate::protocol::varuint::{lemma_varuint_roundtrip, varuint_bytes, varuint_parse, VarScan};
use crate::error::{lemma_lex_order_antisym, lemma_lex_order_eq, lex_order};
use crate::value::{canonical, has_key, key_bytes, keys_ascending, map_with, ValueView};

verus! {

/// The key under which `s` is pooled, if it is.
pub open spec fn pooled_key<V>(pool: Map<u32, V>, s: V) -> Option<u32> {
    if exists|k: u32| pool.contains_key(k) && pool[k] == s {
        Some(choose|k: u32| pool.contains_key(k) && pool[k] == s)
    } else {
        None
    }
}

/// A text string: a pool reference where one is strictly shorter, else the
/// literal.
pub open spec fn enc_tstr(s: Seq<char>, pool: Map<u32, Seq<char>>) -> Seq<u8> {
    let b = key_bytes(s);
    match pooled_key(pool, s) {
        Some(k) => if ref_shorter(b.len(), k as nat) {
            head_bytes(TAG_TSTR_REF, k as nat)
        } else {
            head_bytes(TAG_TSTR, b.len()) + b
        },
        None => head_bytes(TAG_TSTR, b.len()) + b,
    }
}

/// A map key: its pool key tagged `0b00`, or its byte length tagged `0b01`
/// and its bytes.
pub open spec fn enc_key(k: Seq<char>, pool: Map<u32, Seq<char>>) -> Seq<u8> {
    match pooled_key(pool, k) {
        Some(x) => varuint_bytes(x as nat * 4),
        None => varuint_bytes(key_bytes(k).len() * 4 + 1) + key_bytes(k),
    }
}

/// Law: a text string is written as the shorter of its literal and, when
/// it is pooled, its pool reference; on a tie the literal is kept, and an
/// unpooled string is always literal.
pub proof fn lemma_tstr_shortest(s: Seq<char>, pool: Map<u32, Seq<char>>)
    ensures
        ({
            let b = key_bytes(s);
            let lit = head_bytes(TAG_TSTR, b.len()) + b;
            match pooled_key(pool, s) {
                Some(k) => {
                    let r = head_bytes(TAG_TSTR_REF, k as nat);
                    enc_tstr(s, pool) == if r.len() < lit.len() {
                        r
                    } else {
                        lit
                    }
                },
                None => enc_tstr(s, pool) == lit,
            }
        }),
{
    let b = key_bytes(s);
    crate::protocol::layout::lemma_head_len(TAG_TSTR, b.len());
    if let Some(k) = pooled_key(pool, s) {
        crate::protocol::layout::lemma_head_len(TAG_TSTR_REF, k as nat);
    }
}

/// The bytes that encode `v`, given the producer's string pool.
pub open spec fn enc_value(v: ValueView, pool: Map<u32, Seq<char>>) -> Seq<u8>
    decreases v,
{
    match v {
        ValueView::PosInt(n) => head_bytes(TAG_POSINT, n as nat),
        ValueView::NegInt(n) => head_bytes(TAG_NEGINT, n as nat),
        ValueView::Null => seq![(TAG_FLOAT * 16 + FLOAT_NULL) as u8],
        ValueView::Bool(b) => seq![
            if b {
                (TAG_FLOAT * 16 + FLOAT_TRUE) as u8
            } else {
                (TAG_FLOAT * 16 + FLOAT_FALSE) as u8
            },
        ],
        ValueView::Float(bits) => seq![(TAG_FLOAT * 16 + FLOAT_BITS_64) as u8] + le_bytes(bits as nat, 8),
        ValueView::BStr(b) => head_bytes(TAG_BSTR, b.len()) + b,
        ValueView::TStr(s) => enc_tstr(s, pool),
        ValueView::Array(items) => head_bytes(TAG_ARRAY, items.len()) + enc_items(items, pool),
        ValueView::Mapping(es) => head_bytes(TAG_MAP, es.len()) + enc_entries(es, pool),
    }
}

/// The items of an array, one after the other.
pub open spec fn enc_items(items: Seq<ValueView>, pool: Map<u32, Seq<char>>) -> Seq<u8>
    decreases items,
{
    if items.len() == 0 {
        Seq::empty()
    } else {
        enc_items(items.drop_last(), pool) + enc_value(items.last(), pool)
    }
}

/// The entries of a map, each key followed by its value.
pub open spec fn enc_entries(es: Seq<(Seq<char>, ValueView)>, pool: Map<u32, Seq<char>>) -> Seq<
    u8,
>
    decreases es,
{
    if es.len() == 0 {
        Seq::empty()
    } else {
        enc_entries(es.drop_last(), pool) + enc_key(es.last().0, pool) + enc_value(
            es.last().1,
            pool,
        )
    }
}

/// Whether `v` is within the machine limits of the encoding: every length
/// and count below `2^64`, and every map key shorter than `2^62` bytes so
/// that its tagged length fits in 64 bits.
pub open spec fn fits(v: ValueView) -> bool
    decreases v,
{
    match v {
        ValueView::BStr(b) => b.len() < 0x1_0000_0000_0000_0000,
        ValueView::TStr(s) => key_bytes(s).len() < 0x1_0000_0000_0000_0000,
        ValueView::Array(items) => items.len() < 0x1_0000_0000_0000_0000 && forall|i: int|
            0 <= i < items.len() ==> fits(#[trigger] items[i]),
        ValueView::Mapping(es) => es.len() < 0x1_0000_0000_0000_0000 && forall|i: int|
            0 <= i < es.len() ==> key_bytes(#[trigger] es[i].0).len() < 0x4000_0000_0000_0000
                && fits(es[i].1),
        _ => true,
    }
}

/// Reads the value at `pos`, given the consumer's string pool: the value
/// and the position after it, or nothing when the bytes hold no value there.
pub open spec fn dec_value(b: Seq<u8>, pos: int, pool: Map<u32, Seq<char>>) -> Option<
    (ValueView, int),
>
    decreases b.len() - pos + 1, 0int,
{
    if pos < 0 || pos >= b.len() {
        None
    } else {
        let tag = b[pos] / 16;
        let p = b[pos] % 16;
        let s = b.skip(pos);
        if tag == TAG_POSINT || tag == TAG_NEGINT {
            match head_parse(s) {
                Some((n, c)) => Some(
                    (
                        if tag == TAG_POSINT {
                            ValueView::PosInt(n as u64)
                        } else {
                            ValueView::NegInt(n as u64)
                        },
                        pos + c,
                    ),
                ),
                None => None,
            }
        } else if tag == TAG_BSTR || tag == TAG_TSTR {
            match head_parse(s) {
                Some((n, c)) => {
                    let start = pos + c;
                    if start + n > b.len() {
                        None
                    } else {
                        let bytes = b.subrange(start, start + n);
                        if tag == TAG_BSTR {
                            Some((ValueView::BStr(bytes), start + n))
                        } else if vstd::utf8::valid_utf8(bytes) {
                            Some((ValueView::TStr(vstd::utf8::decode_utf8(bytes)), start + n))
                        } else {
                            None
                        }
                    }
                },
                None => None,
            }
        } else if tag == TAG_TSTR_REF {
            match head_parse(s) {
                Some((k, c)) => if k <= u32::MAX && pool.contains_key(k as u32) {
                    Some((ValueView::TStr(pool[k as u32]), pos + c))
                } else {
                    None
                },
                None => None,
            }
        } else if tag == TAG_ARRAY {
            match head_parse(s) {
                Some((n, c)) => match dec_items(b, pos + c, n, pos, pool) {
                    Some((items, end)) => Some((ValueView::Array(items), end)),
                    None => None,
                },
                None => None,
            }
        } else if tag == TAG_MAP {
            match head_parse(s) {
                Some((n, c)) => match dec_entries(b, pos + c, n, pos, Seq::empty(), pool) {
                    Some((es, end)) => Some((ValueView::Mapping(es), end)),
                    None => None,
                },
                None => None,
            }
        } else if tag == TAG_FLOAT {
            if p == FLOAT_FALSE {
                Some((ValueView::Bool(false), pos + 1))
            } else if p == FLOAT_TRUE {
                Some((ValueView::Bool(true), pos + 1))
            } else if p == FLOAT_NULL {
                Some((ValueView::Null, pos + 1))
            } else if p == FLOAT_BITS_64 && pos + 9 <= b.len() {
                Some((ValueView::Float(le_value(b.subrange(pos + 1, pos + 9)) as u64), pos + 9))
            } else {
                None
            }
        } else {
            None
        }
    }
}

/// Reads `n` values from `pos` on, inside a container that starts at `lo`.
pub open spec fn dec_items(b: Seq<u8>, pos: int, n: nat, lo: int, pool: Map<u32, Seq<char>>) -> Option<
    (Seq<ValueView>, int),
>
    decreases b.len() - lo, n,
{
    if n == 0 {
        Some((Seq::empty(), pos))
    } else if !(0 <= lo < pos <= b.len()) {
        None
    } else {
        match dec_value(b, pos, pool) {
            Some((v, next)) => match dec_items(b, next, (n - 1) as nat, lo, pool) {
                Some((vs, end)) => Some((seq![v] + vs, end)),
                None => None,
            },
            None => None,
        }
    }
}

/// Reads the map key at `pos`: its text and the position after it.
pub open spec fn dec_key(b: Seq<u8>, pos: int, pool: Map<u32, Seq<char>>) -> Option<(Seq<char>, int)> {
    if pos < 0 || pos > b.len() {
        None
    } else {
        match varuint_parse(b.skip(pos)) {
            VarScan::Value(x, c) => {
                let payload = x / 4;
                let next = pos + c;
                if x % 4 == 0 {
                    if payload <= u32::MAX && pool.contains_key(payload as u32) {
                        Some((pool[payload as u32], next))
                    } else {
                        None
                    }
                } else if x % 4 == 1 {
                    if next + payload <= b.len() && vstd::utf8::valid_utf8(
                        b.subrange(next, next + payload),
                    ) {
                        Some(
                            (
                                vstd::utf8::decode_utf8(b.subrange(next, next + payload)),
                                next + payload,
                            ),
                        )
                    } else {
                        None
                    }
                } else {
                    None
                }
            },
            _ => None,
        }
    }
}

/// Reads `n` map entries from `pos` on, inside a map that starts at `lo`,
/// adding them to the entries `acc` read so far; a key read twice fails.
pub open spec fn dec_entries(
    b: Seq<u8>,
    pos: int,
    n: nat,
    lo: int,
    acc: Seq<(Seq<char>, ValueView)>,
    pool: Map<u32, Seq<char>>,
) -> Option<(Seq<(Seq<char>, ValueView)>, int)>
    decreases b.len() - lo, n,
{
    if n == 0 {
        Some((acc, pos))
    } else if !(0 <= lo < pos <= b.len()) {
        None
    } else {
        match dec_key(b, pos, pool) {
            Some((key, p2)) => if !(pos < p2 <= b.len()) {
                None
            } else {
                match dec_value(b, p2, pool) {
                    Some((v, next)) => if has_key(acc, key) {
                        None
                    } else {
                        dec_entries(b, next, (n - 1) as nat, lo, map_with(acc, key, v), pool)
                    },
                    None => None,
                }
            },
            None => None,
        }
    }
}

/// The items encode as the first one followed by the rest.
pub proof fn lemma_enc_items_front(items: Seq<ValueView>, pool: Map<u32, Seq<char>>)
    requires
        items.len() > 0,
    ensures
        enc_items(items, pool) == enc_value(items[0], pool) + enc_items(items.drop_first(), pool),
    decreases items.len(),
{
    if items.len() == 1 {
        assert(items.drop_last() =~= Seq::<ValueView>::empty());
        assert(items.drop_first() =~= Seq::<ValueView>::empty());
        assert(enc_items(items.drop_last(), pool) == Seq::<u8>::empty());
        assert(enc_items(items.drop_first(), pool) == Seq::<u8>::empty());
        assert(items.last() == items[0]);
        assert(enc_items(items, pool) =~= enc_value(items[0], pool));
    } else {
        lemma_enc_items_front(items.drop_last(), pool);
        assert(items.drop_last().drop_first() =~= items.drop_first().drop_last());
        assert(items.drop_first().last() == items.last());
        assert(enc_items(items, pool) =~= enc_value(items[0], pool) + enc_items(items.drop_first(), pool));
    }
}

/// The entries encode as the first one followed by the rest.
pub proof fn lemma_enc_entries_front(es: Seq<(Seq<char>, ValueView)>, pool: Map<u32, Seq<char>>)
    requires
        es.len() > 0,
    ensures
        enc_entries(es, pool) == enc_key(es[0].0, pool) + enc_value(es[0].1, pool) + enc_entries(
            es.drop_first(),
            pool,
        ),
    decreases es.len(),
{
    if es.len() == 1 {
        assert(es.drop_last() =~= Seq::<(Seq<char>, ValueView)>::empty());
        assert(es.drop_first() =~= Seq::<(Seq<char>, ValueView)>::empty());
        assert(enc_entries(es.drop_last(), pool) == Seq::<u8>::empty());
        assert(enc_entries(es.drop_first(), pool) == Seq::<u8>::empty());
        assert(es.last() == es[0]);
        assert(enc_entries(es, pool) =~= enc_key(es[0].0, pool) + enc_value(es[0].1, pool));
    } else {
        lemma_enc_entries_front(es.drop_last(), pool);
        assert(es.drop_last().drop_first() =~= es.drop_first().drop_last());
        assert(es.drop_first().last() == es.last());
        assert(enc_entries(es, pool) =~= enc_key(es[0].0, pool) + enc_value(es[0].1, pool)
            + enc_entries(es.drop_first(), pool));
    }
}

/// A map key reads back as written.
pub proof fn lemma_key_roundtrip(k: Seq<char>, pool: Map<u32, Seq<char>>, b: Seq<u8>, pos: int)
    requires
        key_bytes(k).len() < 0x4000_0000_0000_0000,
        0 <= pos,
        pos + enc_key(k, pool).len() <= b.len(),
        b.subrange(pos, pos + enc_key(k, pool).len()) == enc_key(k, pool),
    ensures
        dec_key(b, pos, pool) == Some((k, pos + enc_key(k, pool).len())),
{
    let e = enc_key(k, pool);
    let rest = b.skip(pos + e.len());
    assert(b.skip(pos) =~= e + rest);
    vstd::utf8::encode_utf8_valid_utf8(k);
    vstd::utf8::encode_utf8_decode_utf8(k);
    match pooled_key(pool, k) {
        Some(x) => {
            lemma_varuint_roundtrip((x as nat * 4) as u64, rest);
            assert(pool.contains_key(x) && pool[x] == k);
        },
        None => {
            let kb = key_bytes(k);
            let vb = varuint_bytes(kb.len() * 4 + 1);
            lemma_varuint_roundtrip((kb.len() * 4 + 1) as u64, kb + rest);
            assert(e == vb + kb);
            assert(e + rest =~= vb + (kb + rest));
            let next = pos + vb.len();
            assert forall|j: int| 0 <= j < kb.len() implies b.subrange(next, next + kb.len())[j] == kb[j] by {
                assert(b.subrange(pos, pos + e.len())[vb.len() + j] == e[vb.len() + j]);
            }
            assert(b.subrange(next, next + kb.len()) =~= kb);
        },
    }
}

/// An entry key larger than all keys so far goes last.
pub proof fn lemma_map_with_last(acc: Seq<(Seq<char>, ValueView)>, k: Seq<char>, v: ValueView)
    requires
        forall|i: int| 0 <= i < acc.len() ==> lex_order(key_bytes(#[trigger] acc[i].0), key_bytes(k)) < 0,
    ensures
        map_with(acc, k, v) == acc.push((k, v)),
        !has_key(acc, k),
    decreases acc.len(),
{
    if acc.len() > 0 {
        lemma_lex_order_antisym(key_bytes(acc[0].0), key_bytes(k));
        let t = acc.drop_first();
        assert forall|i: int| 0 <= i < t.len() implies lex_order(key_bytes(#[trigger] t[i].0), key_bytes(k)) < 0 by {
            assert(t[i] == acc[i + 1]);
        }
        lemma_map_with_last(t, k, v);
        assert(seq![acc[0]] + t.push((k, v)) =~= acc.push((k, v)));
    }
    if has_key(acc, k) {
        let i = choose|i: int| 0 <= i < acc.len() && #[trigger] key_bytes(acc[i].0) == key_bytes(k);
        lemma_lex_order_eq(key_bytes(acc[i].0), key_bytes(k));
    }
}

/// Every value encoding takes at least one byte.
pub proof fn lemma_enc_value_nonempty(v: ValueView, pool: Map<u32, Seq<char>>)
    ensures
        enc_value(v, pool).len() >= 1,
{
    match v {
        ValueView::PosInt(n) => lemma_head_len(TAG_POSINT, n as nat),
        ValueView::NegInt(n) => lemma_head_len(TAG_NEGINT, n as nat),
        ValueView::BStr(b) => lemma_head_len(TAG_BSTR, b.len()),
        ValueView::TStr(s) => {
            lemma_head_len(TAG_TSTR, key_bytes(s).len());
            match pooled_key(pool, s) {
                Some(k) => lemma_head_len(TAG_TSTR_REF, k as nat),
                None => {},
            }
        },
        ValueView::Array(items) => lemma_head_len(TAG_ARRAY, items.len()),
        ValueView::Mapping(es) => lemma_head_len(TAG_MAP, es.len()),
        _ => {},
    }
}

/// A value reads back as written, wherever it stands in the bytes, when the
/// decoder's string pool is the encoder's.
#[verifier::rlimit(60)]
pub proof fn lemma_value_roundtrip(v: ValueView, pool: Map<u32, Seq<char>>, b: Seq<u8>, pos: int)
    requires
        canonical(v),
        fits(v),
        0 <= pos,
        pos + enc_value(v, pool).len() <= b.len(),
        b.subrange(pos, pos + enc_value(v, pool).len()) == enc_value(v, pool),
    ensures
        dec_value(b, pos, pool) == Some((v, pos + enc_value(v, pool).len())),
    decreases v, 1nat,
{
    let e = enc_value(v, pool);
    let rest = b.skip(pos + e.len());
    lemma_enc_value_nonempty(v, pool);
    assert(b.skip(pos) =~= e + rest);
    assert(b[pos] == e[0]);
    match v {
        ValueView::PosInt(n) => {
            lemma_head_roundtrip(TAG_POSINT, n as nat, rest);
        },
        ValueView::NegInt(n) => {
            lemma_head_roundtrip(TAG_NEGINT, n as nat, rest);
        },
        ValueView::Null => {},
        ValueView::Bool(_) => {},
        ValueView::Float(bits) => {
            lemma_pow256_values();
            lemma_le_roundtrip(bits as nat, 8);
            assert(b.subrange(pos + 1, pos + 9) =~= e.subrange(1, 9));
            assert(e.subrange(1, 9) =~= le_bytes(bits as nat, 8));
        },
        ValueView::BStr(bytes) => {
            let h = head_bytes(TAG_BSTR, bytes.len());
            lemma_head_roundtrip(TAG_BSTR, bytes.len(), bytes + rest);
            assert(e + rest =~= h + (bytes + rest));
            assert forall|j: int| 0 <= j < bytes.len() implies b.subrange(pos + h.len(), pos + h.len() + bytes.len())[j] == bytes[j] by {
                assert(b.subrange(pos, pos + e.len())[h.len() + j] == e[h.len() + j]);
            }
            assert(b.subrange(pos + h.len(), pos + h.len() + bytes.len()) =~= bytes);
        },
        ValueView::TStr(t) => {
            let kb = key_bytes(t);
            vstd::utf8::encode_utf8_valid_utf8(t);
            vstd::utf8::encode_utf8_decode_utf8(t);
            let lit = head_bytes(TAG_TSTR, kb.len());
            let literal = match pooled_key(pool, t) {
                Some(k) => !ref_shorter(kb.len(), k as nat),
                None => true,
            };
            if literal {
                assert(e == lit + kb);
                lemma_head_roundtrip(TAG_TSTR, kb.len(), kb + rest);
                assert(e + rest =~= lit + (kb + rest));
                assert forall|j: int| 0 <= j < kb.len() implies b.subrange(pos + lit.len(), pos + lit.len() + kb.len())[j] == kb[j] by {
                    assert(b.subrange(pos, pos + e.len())[lit.len() + j] == e[lit.len() + j]);
                }
                assert(b.subrange(pos + lit.len(), pos + lit.len() + kb.len()) =~= kb);
            } else {
                let k = pooled_key(pool, t)->Some_0;
                assert(pool.contains_key(k) && pool[k] == t);
                lemma_head_roundtrip(TAG_TSTR_REF, k as nat, rest);
            }
        },
        ValueView::Array(items) => {
            let h = head_bytes(TAG_ARRAY, items.len());
            let body = enc_items(items, pool);
            lemma_head_roundtrip(TAG_ARRAY, items.len(), body + rest);
            assert(e + rest =~= h + (body + rest));
            assert forall|j: int| 0 <= j < body.len() implies b.subrange(pos + h.len(), pos + h.len() + body.len())[j] == body[j] by {
                assert(b.subrange(pos, pos + e.len())[h.len() + j] == e[h.len() + j]);
            }
            assert(b.subrange(pos + h.len(), pos + h.len() + body.len()) =~= body);
            lemma_items_roundtrip(items, pool, b, pos + h.len(), pos);
        },
        ValueView::Mapping(es) => {
            let h = head_bytes(TAG_MAP, es.len());
            let body = enc_entries(es, pool);
            lemma_head_roundtrip(TAG_MAP, es.len(), body + rest);
            assert(e + rest =~= h + (body + rest));
            assert forall|j: int| 0 <= j < body.len() implies b.subrange(pos + h.len(), pos + h.len() + body.len())[j] == body[j] by {
                assert(b.subrange(pos, pos + e.len())[h.len() + j] == e[h.len() + j]);
            }
            assert(b.subrange(pos + h.len(), pos + h.len() + body.len()) =~= body);
            assert(Seq::<(Seq<char>, ValueView)>::empty() + es =~= es);
            assert forall|i: int| 0 <= i < es.len() implies canonical(#[trigger] es[i].1) && fits(
                es[i].1,
            ) && key_bytes(es[i].0).len() < 0x4000_0000_0000_0000 by {
                assert(key_bytes(es[i].0).len() < 0x4000_0000_0000_0000);
            }
            lemma_entries_roundtrip(es, Seq::empty(), pool, b, pos + h.len(), pos);
        },
    }
}

/// Items read back as written.
pub proof fn lemma_items_roundtrip(
    items: Seq<ValueView>,
    pool: Map<u32, Seq<char>>,
    b: Seq<u8>,
    pos: int,
    lo: int,
)
    requires
        forall|i: int| 0 <= i < items.len() ==> canonical(#[trigger] items[i]) && fits(items[i]),
        0 <= lo < pos,
        pos + enc_items(items, pool).len() <= b.len(),
        b.subrange(pos, pos + enc_items(items, pool).len()) == enc_items(items, pool),
    ensures
        dec_items(b, pos, items.len(), lo, pool) == Some((items, pos + enc_items(items, pool).len())),
    decreases items, 0nat,
{
    if items.len() == 0 {
        assert(items =~= Seq::<ValueView>::empty());
    } else {
        lemma_enc_items_front(items, pool);
        let first = enc_value(items[0], pool);
        let tail = enc_items(items.drop_first(), pool);
        let all = enc_items(items, pool);
        assert forall|j: int| 0 <= j < first.len() implies b.subrange(pos, pos + first.len())[j] == first[j] by {
            assert(b.subrange(pos, pos + all.len())[j] == all[j]);
        }
        assert(b.subrange(pos, pos + first.len()) =~= first);
        assert(decreases_to!(items => items[0]));
        lemma_value_roundtrip(items[0], pool, b, pos);
        lemma_enc_value_nonempty(items[0], pool);
        let next = pos + first.len();
        assert forall|j: int| 0 <= j < tail.len() implies b.subrange(next, next + tail.len())[j] == tail[j] by {
            assert(b.subrange(pos, pos + all.len())[first.len() + j] == all[first.len() + j]);
        }
        assert(b.subrange(next, next + tail.len()) =~= tail);
        assert forall|i: int| 0 <= i < items.drop_first().len() implies canonical(#[trigger] items.drop_first()[i]) && fits(items.drop_first()[i]) by {
            assert(items.drop_first()[i] == items[i + 1]);
        }
        lemma_items_roundtrip(items.drop_first(), pool, b, next, lo);
        assert(seq![items[0]] + items.drop_first() =~= items);
    }
}

/// Map entries read back as written, after the entries `acc` read before
/// them, when all keys ascend.
pub proof fn lemma_entries_roundtrip(
    es: Seq<(Seq<char>, ValueView)>,
    acc: Seq<(Seq<char>, ValueView)>,
    pool: Map<u32, Seq<char>>,
    b: Seq<u8>,
    pos: int,
    lo: int,
)
    requires
        keys_ascending(acc + es),
        forall|i: int|
            0 <= i < es.len() ==> canonical(#[trigger] es[i].1) && fits(es[i].1) && key_bytes(
                es[i].0,
            ).len() < 0x4000_0000_0000_0000,
        0 <= lo < pos,
        pos + enc_entries(es, pool).len() <= b.len(),
        b.subrange(pos, pos + enc_entries(es, pool).len()) == enc_entries(es, pool),
    ensures
        dec_entries(b, pos, es.len(), lo, acc, pool) == Some(
            (acc + es, pos + enc_entries(es, pool).len()),
        ),
    decreases es, 0nat,
{
    if es.len() == 0 {
        assert(acc + es =~= acc);
    } else {
        lemma_enc_entries_front(es, pool);
        let k = es[0].0;
        let ek = enc_key(k, pool);
        let ev = enc_value(es[0].1, pool);
        let tail = enc_entries(es.drop_first(), pool);
        let all = enc_entries(es, pool);
        assert(all == ek + ev + tail);
        assert forall|j: int| 0 <= j < ek.len() implies b.subrange(pos, pos + ek.len())[j] == ek[j] by {
            assert(b.subrange(pos, pos + all.len())[j] == all[j]);
        }
        assert(b.subrange(pos, pos + ek.len()) =~= ek);
        lemma_key_roundtrip(k, pool, b, pos);
        lemma_varuint_len_pos(k, pool);
        let p2 = pos + ek.len();
        assert forall|j: int| 0 <= j < ev.len() implies b.subrange(p2, p2 + ev.len())[j] == ev[j] by {
            assert(b.subrange(pos, pos + all.len())[ek.len() + j] == all[ek.len() + j]);
        }
        assert(b.subrange(p2, p2 + ev.len()) =~= ev);
        assert(decreases_to!(es => es[0]));
        assert(decreases_to!(es[0] => es[0].1));
        lemma_value_roundtrip(es[0].1, pool, b, p2);
        lemma_enc_value_nonempty(es[0].1, pool);
        let next = p2 + ev.len();
        assert forall|j: int| 0 <= j < tail.len() implies b.subrange(next, next + tail.len())[j] == tail[j] by {
            assert(b.subrange(pos, pos + all.len())[ek.len() + ev.len() + j] == all[ek.len() + ev.len() + j]);
        }
        assert(b.subrange(next, next + tail.len()) =~= tail);
        assert forall|i: int| 0 <= i < acc.len() implies lex_order(key_bytes(#[trigger] acc[i].0), key_bytes(k)) < 0 by {
            assert((acc + es)[i] == acc[i]);
            assert((acc + es)[acc.len() as int] == es[0]);
        }
        lemma_map_with_last(acc, k, es[0].1);
        let acc2 = acc.push(es[0]);
        assert(acc2 + es.drop_first() =~= acc + es);
        assert forall|i: int| 0 <= i < es.drop_first().len() implies canonical(#[trigger] es.drop_first()[i].1) && fits(es.drop_first()[i].1) && key_bytes(
                es.drop_first()[i].0,
            ).len() < 0x4000_0000_0000_0000 by {
            assert(es.drop_first()[i] == es[i + 1]);
        }
        lemma_entries_roundtrip(es.drop_first(), acc2, pool, b, next, lo);
    }
}

/// A map key takes at least one byte.
proof fn lemma_varuint_len_pos(k: Seq<char>, pool: Map<u32, Seq<char>>)
    ensures
        enc_key(k, pool).len() >= 1,
{
    match pooled_key(pool, k) {
        Some(x) => crate::protocol::varuint::lemma_varuint_bytes_len(x as nat * 4),
        None => crate::protocol::varuint::lemma_varuint_bytes_len(key_bytes(k).len() * 4 + 1),
    }
}

} // verus!
