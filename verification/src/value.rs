//! Document values: integers, null, booleans, floats (held as their bits),
//! binary and text strings, arrays, and maps with text keys. Each value
//! carries the BLAKE3 hash of its content, so that values compare fast.

use vstd::prelude::*;

use crate::error::{
    compare_bytes, lemma_lex_order_antisym, lemma_lex_order_eq, lemma_lex_order_trans,
    lex_order, Error, ErrorKind, Result,
};
use crate::le::{append_bytes, le_bytes, le_value, lemma_le_roundtrip, lemma_pow256_values, push_le};

verus! {

const HASH_POSINT: u8 = 0x00;

const HASH_NEGINT: u8 = 0x10;

const HASH_BSTR: u8 = 0x20;

const HASH_TSTR: u8 = 0x30;

const HASH_ARRAY: u8 = 0x40;

const HASH_MAP: u8 = 0x50;

const HASH_FLOAT: u8 = 0x70;

const HASH_FALSE: u8 = 0x74;

const HASH_TRUE: u8 = 0x75;

const HASH_NULL: u8 = 0x76;

/// The BLAKE3 digest of `data`.
pub uninterp spec fn blake3_digest(data: Seq<u8>) -> Seq<u8>;

/// Calls `blake3::hash`, which returns the 32-byte BLAKE3 digest of its input;
/// the contract names that digest and says nothing more of it.
#[verifier::external_body]
fn blake3_hash(data: &[u8]) -> (d: [u8; 32])
    ensures
        d@ == blake3_digest(data@),
{
    *blake3::hash(data).as_bytes()
}

/// What a value is, as the contracts see it.
pub ghost enum ValueView {
    /// A non-negative integer.
    PosInt(u64),
    /// The negative integer `-1 - n`.
    NegInt(u64),
    Null,
    Bool(bool),
    /// A binary64 float, by its bits.
    Float(u64),
    BStr(Seq<u8>),
    TStr(Seq<char>),
    Array(Seq<ValueView>),
    /// Entries in ascending order of their keys' UTF-8 bytes, no key twice.
    Mapping(Seq<(Seq<char>, ValueView)>),
}

/// The kind of a value.
#[derive(Debug, Clone, Copy, PartialEq, Eq, Structural)]
pub enum ValueKind {
    Int,
    Null,
    Bool,
    Float,
    BStr,
    TStr,
    Array,
    Mapping,
}

/// The kind of a viewed value.
pub open spec fn kind_of(v: ValueView) -> ValueKind {
    match v {
        ValueView::PosInt(_) | ValueView::NegInt(_) => ValueKind::Int,
        ValueView::Null => ValueKind::Null,
        ValueView::Bool(_) => ValueKind::Bool,
        ValueView::Float(_) => ValueKind::Float,
        ValueView::BStr(_) => ValueKind::BStr,
        ValueView::TStr(_) => ValueKind::TStr,
        ValueView::Array(_) => ValueKind::Array,
        ValueView::Mapping(_) => ValueKind::Mapping,
    }
}

/// The integer a viewed integer stands for.
pub open spec fn int_of(v: ValueView) -> int {
    match v {
        ValueView::PosInt(n) => n as int,
        ValueView::NegInt(n) => -1 - n,
        _ => 0,
    }
}

/// The UTF-8 bytes of a key.
pub open spec fn key_bytes(k: Seq<char>) -> Seq<u8> {
    vstd::utf8::encode_utf8(k)
}

/// Keys in strictly ascending byte order.
pub open spec fn keys_ascending(m: Seq<(Seq<char>, ValueView)>) -> bool {
    forall|i: int, j: int|
        0 <= i < j < m.len() ==> lex_order(key_bytes(#[trigger] m[i].0), key_bytes(
            #[trigger] m[j].0,
        )) < 0
}

/// The entries after setting `key` to `value`: an equal key has its value
/// replaced, a new key goes where it keeps the keys in order.
pub open spec fn map_with(
    m: Seq<(Seq<char>, ValueView)>,
    key: Seq<char>,
    value: ValueView,
) -> Seq<(Seq<char>, ValueView)>
    decreases m.len(),
{
    if m.len() == 0 {
        seq![(key, value)]
    } else if lex_order(key_bytes(key), key_bytes(m[0].0)) == 0 {
        seq![(key, value)] + m.drop_first()
    } else if lex_order(key_bytes(key), key_bytes(m[0].0)) < 0 {
        seq![(key, value)] + m
    } else {
        seq![m[0]] + map_with(m.drop_first(), key, value)
    }
}

/// The entries of a map built from `entries` in order, later ones replacing
/// earlier ones with the same key.
pub open spec fn map_from(entries: Seq<(Seq<char>, ValueView)>) -> Seq<(Seq<char>, ValueView)>
    decreases entries.len(),
{
    if entries.len() == 0 {
        Seq::empty()
    } else {
        map_with(map_from(entries.drop_last()), entries.last().0, entries.last().1)
    }
}

/// Maps keep their keys ascending, at every depth.
pub open spec fn canonical(v: ValueView) -> bool
    decreases v,
{
    match v {
        ValueView::Array(items) => forall|i: int|
            0 <= i < items.len() ==> canonical(#[trigger] items[i]),
        ValueView::Mapping(es) => keys_ascending(es) && forall|i: int|
            0 <= i < es.len() ==> canonical(#[trigger] es[i].1),
        _ => true,
    }
}

/// Whether `key` occurs among the entries.
pub open spec fn has_key(m: Seq<(Seq<char>, ValueView)>, key: Seq<char>) -> bool {
    exists|i: int| 0 <= i < m.len() && #[trigger] key_bytes(m[i].0) == key_bytes(key)
}

#[derive(Debug)]
pub(crate) enum ValueInner {
    PosInt { value: u64 },
    NegInt { value: u64 },
    Null,
    Bool { flag: bool },
    Float { bits: u64 },
    BStr { bytes: Vec<u8> },
    TStr { text: String },
    Array { items: Vec<Value> },
    Mapping { entries: Vec<(String, Value)> },
}

/// A document value. Values compare by their content hash.
#[derive(Debug)]
pub struct Value {
    hash: [u8; 32],
    inner: ValueInner,
}

/// The hashes of `items`, one after the other.
spec fn hashes_of(items: Seq<Value>) -> Seq<u8>
    decreases items.len(),
{
    if items.len() == 0 {
        Seq::empty()
    } else {
        hashes_of(items.drop_last()) + items.last().hash@
    }
}

/// For each entry: its key's byte length as 8 bytes, the key's bytes, the
/// value's hash.
spec fn entries_hash(entries: Seq<(String, Value)>) -> Seq<u8>
    decreases entries.len(),
{
    if entries.len() == 0 {
        Seq::empty()
    } else {
        let e = entries.last();
        entries_hash(entries.drop_last()) + le_bytes(key_bytes(e.0@).len(), 8) + key_bytes(e.0@)
            + e.1.hash@
    }
}

/// What the hash of a value is taken over.
spec fn hash_input(inner: ValueInner) -> Seq<u8> {
    match inner {
        ValueInner::PosInt { value } => seq![HASH_POSINT] + le_bytes(value as nat, 8),
        ValueInner::NegInt { value } => seq![HASH_NEGINT] + le_bytes(value as nat, 8),
        ValueInner::Null => seq![HASH_NULL],
        ValueInner::Bool { flag } => seq![
            if flag {
                HASH_TRUE
            } else {
                HASH_FALSE
            },
        ],
        ValueInner::Float { bits } => seq![HASH_FLOAT] + le_bytes(bits as nat, 8),
        ValueInner::BStr { bytes } => seq![HASH_BSTR] + bytes@,
        ValueInner::TStr { text } => seq![HASH_TSTR] + key_bytes(text@),
        ValueInner::Array { items } => seq![HASH_ARRAY] + hashes_of(items@),
        ValueInner::Mapping { entries } => seq![HASH_MAP] + entries_hash(entries@),
    }
}

/// The content hash of a value, taken over its kind and content, with the
/// hashes of its items and entries in place of the items themselves.
pub closed spec fn view_digest(v: ValueView) -> Seq<u8>
    decreases v,
{
    blake3_digest(
        match v {
            ValueView::PosInt(x) => seq![HASH_POSINT] + le_bytes(x as nat, 8),
            ValueView::NegInt(x) => seq![HASH_NEGINT] + le_bytes(x as nat, 8),
            ValueView::Null => seq![HASH_NULL],
            ValueView::Bool(flag) => seq![
                if flag {
                    HASH_TRUE
                } else {
                    HASH_FALSE
                },
            ],
            ValueView::Float(bits) => seq![HASH_FLOAT] + le_bytes(bits as nat, 8),
            ValueView::BStr(bytes) => seq![HASH_BSTR] + bytes,
            ValueView::TStr(text) => seq![HASH_TSTR] + key_bytes(text),
            ValueView::Array(items) => seq![HASH_ARRAY] + items_digests(items),
            ValueView::Mapping(es) => seq![HASH_MAP] + entries_digests(es),
        },
    )
}

/// What a value's content hash is taken over: a tag for its kind (and for
/// an integer's sign and a boolean's value), then its content.
spec fn digest_input(v: ValueView) -> Seq<u8> {
    match v {
        ValueView::PosInt(x) => seq![HASH_POSINT] + le_bytes(x as nat, 8),
        ValueView::NegInt(x) => seq![HASH_NEGINT] + le_bytes(x as nat, 8),
        ValueView::Null => seq![HASH_NULL],
        ValueView::Bool(flag) => seq![
            if flag {
                HASH_TRUE
            } else {
                HASH_FALSE
            },
        ],
        ValueView::Float(bits) => seq![HASH_FLOAT] + le_bytes(bits as nat, 8),
        ValueView::BStr(bytes) => seq![HASH_BSTR] + bytes,
        ValueView::TStr(text) => seq![HASH_TSTR] + key_bytes(text),
        ValueView::Array(items) => seq![HASH_ARRAY] + items_digests(items),
        ValueView::Mapping(es) => seq![HASH_MAP] + entries_digests(es),
    }
}

/// Different values, unless both are arrays or both are maps, have
/// different hash inputs.
proof fn lemma_digest_input_separates(a: ValueView, b: ValueView)
    requires
        a != b,
        !(a is Array && b is Array),
        !(a is Mapping && b is Mapping),
    ensures
        digest_input(a) != digest_input(b),
{
    let x = digest_input(a);
    let y = digest_input(b);
    if x == y {
        assert(x[0] == y[0]);
        lemma_pow256_values();
        match a {
            ValueView::PosInt(m) => {
                let n = b->PosInt_0;
                lemma_le_roundtrip(m as nat, 8);
                lemma_le_roundtrip(n as nat, 8);
                assert(x.drop_first() =~= le_bytes(m as nat, 8));
                assert(y.drop_first() =~= le_bytes(n as nat, 8));
            },
            ValueView::NegInt(m) => {
                let n = b->NegInt_0;
                lemma_le_roundtrip(m as nat, 8);
                lemma_le_roundtrip(n as nat, 8);
                assert(x.drop_first() =~= le_bytes(m as nat, 8));
                assert(y.drop_first() =~= le_bytes(n as nat, 8));
            },
            ValueView::Float(m) => {
                let n = b->Float_0;
                lemma_le_roundtrip(m as nat, 8);
                lemma_le_roundtrip(n as nat, 8);
                assert(x.drop_first() =~= le_bytes(m as nat, 8));
                assert(y.drop_first() =~= le_bytes(n as nat, 8));
            },
            ValueView::BStr(m) => {
                let n = b->BStr_0;
                assert(x.drop_first() =~= m);
                assert(y.drop_first() =~= n);
            },
            ValueView::TStr(m) => {
                let n = b->TStr_0;
                assert(x.drop_first() =~= key_bytes(m));
                assert(y.drop_first() =~= key_bytes(n));
                vstd::utf8::encode_utf8_decode_utf8(m);
                vstd::utf8::encode_utf8_decode_utf8(n);
            },
            _ => {},
        }
    }
}

/// A value's content hash is the BLAKE3 digest of its hash input.
proof fn lemma_digest_of_input(v: ValueView)
    ensures
        view_digest(v) == blake3_digest(digest_input(v)),
{
}

/// Law: content hashes separate values. Two different values, unless both
/// are arrays or both are maps, have the same content hash only through a
/// BLAKE3 collision: two different inputs with one digest. So values of
/// different kinds (null and false among them), integers of different signs,
/// and different values of one other kind differ in their hashes unless
/// BLAKE3 collides.
pub proof fn lemma_digest_separates(a: ValueView, b: ValueView)
    requires
        a != b,
        !(a is Array && b is Array),
        !(a is Mapping && b is Mapping),
        view_digest(a) == view_digest(b),
    ensures
        exists|x: Seq<u8>, y: Seq<u8>| x != y && blake3_digest(x) == blake3_digest(y),
{
    lemma_digest_input_separates(a, b);
    lemma_digest_of_input(a);
    lemma_digest_of_input(b);
    let x = digest_input(a);
    let y = digest_input(b);
    assert(x != y && blake3_digest(x) == blake3_digest(y));
}

/// Whether every digest has 32 bytes, as BLAKE3's do.
pub open spec fn digests_fixed() -> bool {
    forall|x: Seq<u8>| #[trigger] blake3_digest(x).len() == 32
}

/// Whether every map key, at every depth of `v`, is shorter than `2^64`
/// bytes, so that its length fits in the 8 bytes the hash gives it.
pub open spec fn keys_fit(v: ValueView) -> bool
    decreases v,
{
    match v {
        ValueView::Array(items) => forall|i: int| 0 <= i < items.len() ==> keys_fit(#[trigger] items[i]),
        ValueView::Mapping(es) => forall|i: int|
            0 <= i < es.len() ==> key_bytes(#[trigger] es[i].0).len() < 0x1_0000_0000_0000_0000
                && keys_fit(es[i].1),
        _ => true,
    }
}

/// The hashes of `n` items take `32 * n` bytes.
proof fn lemma_items_digests_len(s: Seq<ValueView>)
    requires
        digests_fixed(),
    ensures
        items_digests(s).len() == 32 * s.len(),
    decreases s.len(),
{
    if s.len() > 0 {
        lemma_items_digests_len(s.subrange(0, s.len() - 1));
        assert(view_digest(s[s.len() - 1]) == blake3_digest(digest_input(s[s.len() - 1])));
    }
}

/// Equal item hashes come from as many items, with equal hashes one by one.
#[verifier::spinoff_prover]
proof fn lemma_items_digests_eq(s: Seq<ValueView>, t: Seq<ValueView>)
    requires
        digests_fixed(),
        items_digests(s) == items_digests(t),
    ensures
        s.len() == t.len(),
        forall|j: int| 0 <= j < s.len() ==> view_digest(#[trigger] s[j]) == view_digest(t[j]),
    decreases s.len(),
{
    lemma_items_digests_len(s);
    lemma_items_digests_len(t);
    if s.len() > 0 {
        let n = s.len() as int;
        let s0 = s.subrange(0, n - 1);
        let t0 = t.subrange(0, n - 1);
        lemma_items_digests_len(s0);
        lemma_items_digests_len(t0);
        let ds = view_digest(s[n - 1]);
        let dt = view_digest(t[n - 1]);
        assert(view_digest(s[n - 1]) == blake3_digest(digest_input(s[n - 1])));
        assert(view_digest(t[n - 1]) == blake3_digest(digest_input(t[n - 1])));
        let whole = items_digests(s);
        assert(whole == items_digests(s0) + ds);
        assert(whole == items_digests(t0) + dt);
        assert(items_digests(s0) =~= whole.subrange(0, 32 * (n - 1)));
        assert(items_digests(t0) =~= whole.subrange(0, 32 * (n - 1)));
        assert(ds =~= whole.subrange(32 * (n - 1), 32 * n));
        assert(dt =~= whole.subrange(32 * (n - 1), 32 * n));
        lemma_items_digests_eq(s0, t0);
        assert forall|j: int| 0 <= j < s.len() implies view_digest(#[trigger] s[j]) == view_digest(t[j]) by {
            if j < n - 1 {
                assert(s0[j] == s[j]);
                assert(t0[j] == t[j]);
            }
        }
    }
}

/// The bytes the hash gives one entry.
spec fn entry_digest(e: (Seq<char>, ValueView)) -> Seq<u8> {
    le_bytes(key_bytes(e.0).len(), 8) + key_bytes(e.0) + view_digest(e.1)
}

/// The entries' hash bytes are the first entry's, then the others'.
proof fn lemma_entries_digests_front(es: Seq<(Seq<char>, ValueView)>)
    requires
        es.len() > 0,
    ensures
        entries_digests(es) == entry_digest(es[0]) + entries_digests(es.drop_first()),
    decreases es.len(),
{
    let n = es.len() as int;
    if n == 1 {
        let none = es.subrange(0, 0);
        assert(none =~= Seq::<(Seq<char>, ValueView)>::empty());
        assert(es.drop_first() =~= Seq::<(Seq<char>, ValueView)>::empty());
        assert(entries_digests(none) == Seq::<u8>::empty());
        assert(entries_digests(es) == entries_digests(none) + le_bytes(key_bytes(es[0].0).len(), 8)
            + key_bytes(es[0].0) + view_digest(es[0].1));
        assert(entries_digests(es) =~= entry_digest(es[0]));
    } else {
        let init = es.subrange(0, n - 1);
        lemma_entries_digests_front(init);
        assert(init.drop_first() =~= es.drop_first().subrange(0, n - 2));
        assert(init[0] == es[0]);
        assert(es.drop_first()[n - 2] == es[n - 1]);
        assert(entries_digests(es.drop_first()) == entries_digests(es.drop_first().subrange(0, n - 2))
            + entry_digest(es[n - 1]));
        assert(entries_digests(es) == entries_digests(init) + entry_digest(es[n - 1]));
    }
}

/// Equal entry hashes come from as many entries, with equal keys and equal
/// value hashes one by one.
#[verifier::spinoff_prover]
proof fn lemma_entries_digests_eq(es: Seq<(Seq<char>, ValueView)>, ft: Seq<(Seq<char>, ValueView)>)
    requires
        digests_fixed(),
        forall|i: int| 0 <= i < es.len() ==> key_bytes(#[trigger] es[i].0).len() < 0x1_0000_0000_0000_0000,
        forall|i: int| 0 <= i < ft.len() ==> key_bytes(#[trigger] ft[i].0).len() < 0x1_0000_0000_0000_0000,
        entries_digests(es) == entries_digests(ft),
    ensures
        es.len() == ft.len(),
        forall|j: int| 0 <= j < es.len() ==> (#[trigger] es[j]).0 == ft[j].0 && view_digest(es[j].1) == view_digest(ft[j].1),
    decreases es.len() + ft.len(),
{
    lemma_pow256_values();
    if es.len() == 0 || ft.len() == 0 {
        if es.len() > 0 {
            lemma_entries_digests_front(es);
            crate::le::lemma_le_bytes_len(key_bytes(es[0].0).len(), 8);
        }
        if ft.len() > 0 {
            lemma_entries_digests_front(ft);
            crate::le::lemma_le_bytes_len(key_bytes(ft[0].0).len(), 8);
        }
    } else {
        lemma_entries_digests_front(es);
        lemma_entries_digests_front(ft);
        let e = es[0];
        let f = ft[0];
        let le: nat = key_bytes(e.0).len();
        let lf: nat = key_bytes(f.0).len();
        let li: int = le as int;
        lemma_le_roundtrip(le, 8);
        lemma_le_roundtrip(lf, 8);
        let de = view_digest(e.1);
        let df = view_digest(f.1);
        assert(de == blake3_digest(digest_input(e.1)));
        assert(df == blake3_digest(digest_input(f.1)));
        let whole = entries_digests(es);
        let re = entries_digests(es.drop_first());
        let rf = entries_digests(ft.drop_first());
        assert(whole == le_bytes(le, 8) + key_bytes(e.0) + de + re);
        assert(whole == le_bytes(lf, 8) + key_bytes(f.0) + df + rf);
        assert(le_bytes(le, 8) =~= whole.subrange(0, 8));
        assert(le_bytes(lf, 8) =~= whole.subrange(0, 8));
        assert(le == lf);
        assert(key_bytes(e.0) =~= whole.subrange(8, 8 + li));
        assert(key_bytes(f.0) =~= whole.subrange(8, 8 + li));
        vstd::utf8::encode_utf8_decode_utf8(e.0);
        vstd::utf8::encode_utf8_decode_utf8(f.0);
        assert(de =~= whole.subrange(8 + li, 8 + li + 32));
        assert(df =~= whole.subrange(8 + li, 8 + li + 32));
        assert(re =~= whole.subrange(8 + li + 32, whole.len() as int));
        assert(rf =~= whole.subrange(8 + li + 32, whole.len() as int));
        lemma_entries_digests_eq(es.drop_first(), ft.drop_first());
        assert forall|j: int| 0 <= j < es.len() implies (#[trigger] es[j]).0 == ft[j].0 && view_digest(es[j].1)
            == view_digest(ft[j].1) by {
            if j > 0 {
                assert(es.drop_first()[j - 1] == es[j]);
                assert(ft.drop_first()[j - 1] == ft[j]);
            }
        }
    }
}

/// Law: content hashes separate all values. When every digest has 32
/// bytes, as BLAKE3's do, and map keys are shorter than `2^64` bytes, two
/// different values have the same content hash only through a BLAKE3
/// collision, at some depth: two different inputs with one digest.
#[verifier::spinoff_prover]
pub proof fn lemma_digest_injective(a: ValueView, b: ValueView)
    requires
        digests_fixed(),
        keys_fit(a),
        keys_fit(b),
        a != b,
        view_digest(a) == view_digest(b),
    ensures
        exists|x: Seq<u8>, y: Seq<u8>| x != y && blake3_digest(x) == blake3_digest(y),
    decreases a,
{
    lemma_digest_of_input(a);
    lemma_digest_of_input(b);
    let x = digest_input(a);
    let y = digest_input(b);
    if x != y {
        assert(x != y && blake3_digest(x) == blake3_digest(y));
    } else if a is Array && b is Array {
        let s = a->Array_0;
        let t = b->Array_0;
        assert(x.drop_first() =~= items_digests(s));
        assert(y.drop_first() =~= items_digests(t));
        lemma_items_digests_eq(s, t);
        assert(s != t);
        assert(exists|j: int| 0 <= j < s.len() && s[j] != t[j]) by {
            if forall|j: int| 0 <= j < s.len() ==> s[j] == t[j] {
                assert(s =~= t);
            }
        }
        let j = choose|j: int| 0 <= j < s.len() && s[j] != t[j];
        assert(decreases_to!(a => a->Array_0));
        assert(decreases_to!(a->Array_0 => a->Array_0[j]));
        assert(keys_fit(s[j]));
        assert(keys_fit(t[j]));
        lemma_digest_injective(s[j], t[j]);
    } else if a is Mapping && b is Mapping {
        let es = a->Mapping_0;
        let ft = b->Mapping_0;
        assert(x.drop_first() =~= entries_digests(es));
        assert(y.drop_first() =~= entries_digests(ft));
        lemma_entries_digests_eq(es, ft);
        assert(es != ft);
        assert(exists|j: int| 0 <= j < es.len() && es[j] != ft[j]) by {
            if forall|j: int| 0 <= j < es.len() ==> es[j] == ft[j] {
                assert(es =~= ft);
            }
        }
        let j = choose|j: int| 0 <= j < es.len() && es[j] != ft[j];
        assert(es[j].1 != ft[j].1);
        assert(decreases_to!(a => a->Mapping_0));
        assert(decreases_to!(a->Mapping_0 => a->Mapping_0[j]));
        assert(decreases_to!(a->Mapping_0[j] => a->Mapping_0[j].1));
        assert(keys_fit(es[j].1));
        assert(keys_fit(ft[j].1));
        lemma_digest_injective(es[j].1, ft[j].1);
    } else {
        lemma_digest_input_separates(a, b);
    }
}

/// Law: each value reports its own kind, and only values of that variant
/// report it.
pub proof fn lemma_kind_of(v: ValueView)
    ensures
        kind_of(v) == ValueKind::Int <==> (v is PosInt || v is NegInt),
        kind_of(v) == ValueKind::Null <==> v is Null,
        kind_of(v) == ValueKind::Bool <==> v is Bool,
        kind_of(v) == ValueKind::Float <==> v is Float,
        kind_of(v) == ValueKind::BStr <==> v is BStr,
        kind_of(v) == ValueKind::TStr <==> v is TStr,
        kind_of(v) == ValueKind::Array <==> v is Array,
        kind_of(v) == ValueKind::Mapping <==> v is Mapping,
{
}

/// The hashes of the items, one after the other.
closed spec fn items_digests(items: Seq<ValueView>) -> Seq<u8>
    decreases items,
{
    if items.len() == 0 {
        Seq::empty()
    } else {
        items_digests(items.subrange(0, items.len() - 1)) + view_digest(items[items.len() - 1])
    }
}

/// For each entry: its key's byte length as 8 bytes, the key's bytes, the
/// hash of its value.
closed spec fn entries_digests(es: Seq<(Seq<char>, ValueView)>) -> Seq<u8>
    decreases es,
{
    if es.len() == 0 {
        Seq::empty()
    } else {
        let e = es[es.len() - 1];
        proof {
            assert(decreases_to!(es => es[es.len() - 1]));
        }
        entries_digests(es.subrange(0, es.len() - 1)) + le_bytes(key_bytes(e.0).len(), 8)
            + key_bytes(e.0) + view_digest(e.1)
    }
}

proof fn lemma_items_digests(items: Seq<Value>)
    requires
        forall|i: int| 0 <= i < items.len() ==> (#[trigger] items[i]).hash@ == view_digest(items[i]@),
    ensures
        hashes_of(items) == items_digests(items_view(items)),
    decreases items.len(),
{
    if items.len() > 0 {
        let iv = items_view(items);
        lemma_items_digests(items.drop_last());
        assert(iv.subrange(0, iv.len() - 1) =~= items_view(items.drop_last()));
        assert(items.last() == items[items.len() - 1]);
    }
}

proof fn lemma_entries_digests(entries: Seq<(String, Value)>)
    requires
        forall|i: int|
            0 <= i < entries.len() ==> (#[trigger] entries[i]).1.hash@ == view_digest(entries[i].1@),
    ensures
        entries_hash(entries) == entries_digests(pairs_view(entries)),
    decreases entries.len(),
{
    if entries.len() > 0 {
        let pv = pairs_view(entries);
        lemma_entries_digests(entries.drop_last());
        assert(pv.subrange(0, pv.len() - 1) =~= pairs_view(entries.drop_last()));
        assert(entries.last() == entries[entries.len() - 1]);
    }
}

impl Value {
    /// The view of the value.
    pub closed spec fn view_of(&self) -> ValueView
        decreases self,
    {
        match self.inner {
            ValueInner::PosInt { value } => ValueView::PosInt(value),
            ValueInner::NegInt { value } => ValueView::NegInt(value),
            ValueInner::Null => ValueView::Null,
            ValueInner::Bool { flag } => ValueView::Bool(flag),
            ValueInner::Float { bits } => ValueView::Float(bits),
            ValueInner::BStr { bytes } => ValueView::BStr(bytes@),
            ValueInner::TStr { text } => ValueView::TStr(text@),
            ValueInner::Array { items } => ValueView::Array(
                Seq::new(
                    items@.len(),
                    |i: int|
                        if 0 <= i < items@.len() {
                            items@[i].view_of()
                        } else {
                            ValueView::Null
                        },
                ),
            ),
            ValueInner::Mapping { entries } => ValueView::Mapping(
                Seq::new(
                    entries@.len(),
                    |i: int|
                        if 0 <= i < entries@.len() {
                            (entries@[i].0@, entries@[i].1.view_of())
                        } else {
                            (Seq::empty(), ValueView::Null)
                        },
                ),
            ),
        }
    }

    #[verifier::type_invariant]
    spec fn hashed(self) -> bool {
        &&& self.hash@ == blake3_digest(hash_input(self.inner))
        &&& self.hash@ == view_digest(self.view_of())
        &&& canonical(self.view_of())
    }
}

/// The views of the entries.
pub open spec fn pairs_view(s: Seq<(String, Value)>) -> Seq<(Seq<char>, ValueView)> {
    Seq::new(s.len(), |i: int| (s[i].0@, s[i].1@))
}

/// The views of the items.
pub open spec fn items_view(s: Seq<Value>) -> Seq<ValueView> {
    Seq::new(s.len(), |i: int| s[i]@)
}

/// Setting a key keeps the keys ascending, and adds an entry exactly when
/// the key was not there.
pub proof fn lemma_map_with(m: Seq<(Seq<char>, ValueView)>, key: Seq<char>, value: ValueView)
    requires
        keys_ascending(m),
    ensures
        keys_ascending(map_with(m, key, value)),
        has_key(m, key) ==> map_with(m, key, value).len() == m.len(),
        !has_key(m, key) ==> map_with(m, key, value).len() == m.len() + 1,
        forall|i: int|
            0 <= i < map_with(m, key, value).len() ==> (#[trigger] map_with(m, key, value)[i].0
                == key || has_key(m, map_with(m, key, value)[i].0)),
    decreases m.len(),
{
    let r = map_with(m, key, value);
    if m.len() == 0 {
    } else {
        let c = lex_order(key_bytes(key), key_bytes(m[0].0));
        lemma_lex_order_antisym(key_bytes(key), key_bytes(m[0].0));
        if c == 0 {
            lemma_lex_order_eq(key_bytes(key), key_bytes(m[0].0));
            assert(key_bytes(m[0].0) == key_bytes(key));
            assert(has_key(m, key));
            assert forall|i: int, j: int| 0 <= i < j < r.len() implies lex_order(
                key_bytes(#[trigger] r[i].0),
                key_bytes(#[trigger] r[j].0),
            ) < 0 by {
                if i == 0 {
                    assert(r[j] == m[j]);
                } else {
                    assert(r[i] == m[i] && r[j] == m[j]);
                }
            }
            assert forall|i: int| 0 <= i < r.len() implies (#[trigger] r[i].0 == key || has_key(
                m,
                r[i].0,
            )) by {
                if i > 0 {
                    assert(r[i] == m[i]);
                    assert(key_bytes(m[i].0) == key_bytes(r[i].0));
                }
            }
        } else if c < 0 {
            assert forall|i: int, j: int| 0 <= i < j < r.len() implies lex_order(
                key_bytes(#[trigger] r[i].0),
                key_bytes(#[trigger] r[j].0),
            ) < 0 by {
                if i == 0 {
                    assert(r[j] == m[j - 1]);
                    if j > 1 {
                        assert(lex_order(key_bytes(m[0].0), key_bytes(m[j - 1].0)) < 0);
                        lemma_lex_order_trans(key_bytes(key), key_bytes(m[0].0), key_bytes(m[j - 1].0));
                    }
                } else {
                    assert(r[i] == m[i - 1] && r[j] == m[j - 1]);
                }
            }
            assert(!has_key(m, key)) by {
                if has_key(m, key) {
                    let k = choose|k: int| 0 <= k < m.len() && #[trigger] key_bytes(m[k].0) == key_bytes(key);
                    if k > 0 {
                        assert(lex_order(key_bytes(m[0].0), key_bytes(m[k].0)) < 0);
                    }
                    lemma_lex_order_eq(key_bytes(m[k].0), key_bytes(key));
                    lemma_lex_order_antisym(key_bytes(m[0].0), key_bytes(key));
                }
            }
            assert forall|i: int| 0 <= i < r.len() implies (#[trigger] r[i].0 == key || has_key(
                m,
                r[i].0,
            )) by {
                if i > 0 {
                    assert(r[i] == m[i - 1]);
                    assert(key_bytes(m[i - 1].0) == key_bytes(r[i].0));
                }
            }
        } else {
            let t = m.drop_first();
            assert(keys_ascending(t)) by {
                assert forall|i: int, j: int| 0 <= i < j < t.len() implies lex_order(
                    key_bytes(#[trigger] t[i].0),
                    key_bytes(#[trigger] t[j].0),
                ) < 0 by {
                    assert(t[i] == m[i + 1] && t[j] == m[j + 1]);
                }
            }
            lemma_map_with(t, key, value);
            let rt = map_with(t, key, value);
            assert(r == seq![m[0]] + rt);
            assert forall|i: int| 0 <= i < rt.len() implies lex_order(
                key_bytes(m[0].0),
                key_bytes(#[trigger] rt[i].0),
            ) < 0 by {
                if rt[i].0 == key {
                } else {
                    assert(has_key(t, rt[i].0));
                    let k = choose|k: int| 0 <= k < t.len() && #[trigger] key_bytes(t[k].0) == key_bytes(rt[i].0);
                    assert(t[k] == m[k + 1]);
                    assert(lex_order(key_bytes(m[0].0), key_bytes(m[k + 1].0)) < 0);
                }
            }
            assert forall|i: int, j: int| 0 <= i < j < r.len() implies lex_order(
                key_bytes(#[trigger] r[i].0),
                key_bytes(#[trigger] r[j].0),
            ) < 0 by {
                if i == 0 {
                    assert(r[j] == rt[j - 1]);
                } else {
                    assert(r[i] == rt[i - 1] && r[j] == rt[j - 1]);
                }
            }
            assert(has_key(m, key) == has_key(t, key)) by {
                if has_key(m, key) {
                    let k = choose|k: int| 0 <= k < m.len() && #[trigger] key_bytes(m[k].0) == key_bytes(key);
                    if k == 0 {
                        lemma_lex_order_eq(key_bytes(key), key_bytes(m[0].0));
                    } else {
                        assert(key_bytes(t[k - 1].0) == key_bytes(key));
                    }
                }
                if has_key(t, key) {
                    let k = choose|k: int| 0 <= k < t.len() && #[trigger] key_bytes(t[k].0) == key_bytes(key);
                    assert(key_bytes(m[k + 1].0) == key_bytes(key));
                }
            }
            assert forall|i: int| 0 <= i < r.len() implies (#[trigger] r[i].0 == key || has_key(
                m,
                r[i].0,
            )) by {
                if i == 0 {
                    assert(key_bytes(m[0].0) == key_bytes(r[0].0));
                } else {
                    assert(r[i] == rt[i - 1]);
                    if rt[i - 1].0 != key {
                        assert(has_key(t, rt[i - 1].0));
                        let k = choose|k: int| 0 <= k < t.len() && #[trigger] key_bytes(t[k].0) == key_bytes(rt[i - 1].0);
                        assert(key_bytes(m[k + 1].0) == key_bytes(r[i].0));
                    }
                }
            }
        }
    }
}

/// Sets `key` to `value` among entries kept in ascending key order; returns
/// whether the key was there.
pub(crate) fn entries_set(entries: &mut Vec<(String, Value)>, key: String, value: Value) -> (replaced:
    bool)
    requires
        keys_ascending(pairs_view(old(entries)@)),
    ensures
        pairs_view(final(entries)@) == map_with(pairs_view(old(entries)@), key@, value@),
        keys_ascending(pairs_view(final(entries)@)),
        replaced == has_key(pairs_view(old(entries)@), key@),
{
    let ghost m = pairs_view(entries@);
    let ghost kv = key@;
    let ghost vv = value@;
    proof {
        lemma_map_with(m, kv, vv);
        assert(m.skip(0) =~= m);
        assert(m.take(0) =~= Seq::<(Seq<char>, ValueView)>::empty());
    }
    let kb = key.as_str().as_bytes();
    let mut i: usize = 0;
    while i < entries.len()
        invariant
            m == pairs_view(entries@),
            entries@ == old(entries)@,
            kv == key@,
            vv == value@,
            kb@ == key_bytes(kv),
            i <= entries@.len(),
            keys_ascending(m),
            keys_ascending(map_with(m, kv, vv)),
            map_with(m, kv, vv) == m.take(i as int) + map_with(m.skip(i as int), kv, vv),
            forall|j: int| 0 <= j < i ==> lex_order(kb@, key_bytes(#[trigger] m[j].0)) > 0,
        decreases entries@.len() - i,
    {
        let c = compare_bytes(kb, entries[i].0.as_str().as_bytes());
        let ghost rest = m.skip(i as int);
        proof {
            assert(rest[0] == m[i as int]);
        }
        if c == 0 {
            let mut entry = (key, value);
            entries.set_and_swap(i, &mut entry);
            proof {
                lemma_lex_order_eq(kb@, key_bytes(m[i as int].0));
                assert(pairs_view(entries@) =~= m.take(i as int) + (seq![(kv, vv)]
                    + rest.drop_first()));
                assert(has_key(m, kv)) by {
                    assert(key_bytes(m[i as int].0) == key_bytes(kv));
                }
            }
            return true;
        }
        if c < 0 {
            entries.insert(i, (key, value));
            proof {
                assert(pairs_view(entries@) =~= m.take(i as int) + (seq![(kv, vv)] + rest));
                assert(!has_key(m, kv)) by {
                    if has_key(m, kv) {
                        let k = choose|k: int| 0 <= k < m.len() && #[trigger] key_bytes(m[k].0) == key_bytes(kv);
                        lemma_lex_order_eq(kb@, key_bytes(m[k].0));
                        if k > i {
                            assert(lex_order(key_bytes(m[i as int].0), key_bytes(m[k].0)) < 0);
                            lemma_lex_order_trans(kb@, key_bytes(m[i as int].0), key_bytes(m[k].0));
                        }
                    }
                }
            }
            return false;
        }
        proof {
            assert(rest.drop_first() =~= m.skip(i + 1));
            assert(m.take(i + 1) =~= m.take(i as int) + seq![rest[0]]);
        }
        i += 1;
    }
    entries.push((key, value));
    proof {
        assert(m.skip(i as int) =~= Seq::<(Seq<char>, ValueView)>::empty());
        assert(m.take(i as int) =~= m);
        assert(pairs_view(entries@) =~= m + seq![(kv, vv)]);
        assert(!has_key(m, kv)) by {
            if has_key(m, kv) {
                let k = choose|k: int| 0 <= k < m.len() && #[trigger] key_bytes(m[k].0) == key_bytes(kv);
                lemma_lex_order_eq(kb@, key_bytes(m[k].0));
            }
        }
    }
    false
}

impl Value {
    fn finish(data: Vec<u8>, inner: ValueInner) -> (v: Value)
        requires
            data@ == hash_input(inner),
            inner matches ValueInner::Array { items } ==> forall|i: int|
                0 <= i < items@.len() ==> canonical(#[trigger] items@[i]@),
            inner matches ValueInner::Mapping { entries } ==> keys_ascending(
                pairs_view(entries@),
            ) && forall|i: int| 0 <= i < entries@.len() ==> canonical(#[trigger] entries@[i].1@),
            inner matches ValueInner::Array { items } ==> forall|i: int|
                0 <= i < items@.len() ==> (#[trigger] items@[i]).hash@ == view_digest(items@[i]@),
            inner matches ValueInner::Mapping { entries } ==> forall|i: int|
                0 <= i < entries@.len() ==> (#[trigger] entries@[i]).1.hash@ == view_digest(
                    entries@[i].1@,
                ),
        ensures
            v.inner == inner,
            canonical(v@),
    {
        let hash = blake3_hash(data.as_slice());
        proof {
            let ghost g = inner;
            let v = Value { hash, inner: g };
            match g {
                ValueInner::Array { items } => {
                    lemma_items_digests(items@);
                    assert(v.view_of()->Array_0 =~= items_view(items@));
                },
                ValueInner::Mapping { entries } => {
                    lemma_entries_digests(entries@);
                    assert(v.view_of()->Mapping_0 =~= pairs_view(entries@));
                },
                _ => {},
            }
            assert(hash@ == view_digest(v.view_of()));
            if let ValueInner::Mapping { entries } = g {
                assert(v.view_of()->Mapping_0 =~= pairs_view(entries@));
                assert forall|i: int| 0 <= i < entries@.len() implies canonical(#[trigger] v.view_of()->Mapping_0[i].1) by {
                    assert(v.view_of()->Mapping_0[i].1 == entries@[i].1@);
                }
            }
            if let ValueInner::Array { items } = g {
                assert forall|i: int| 0 <= i < items@.len() implies canonical(#[trigger] v.view_of()->Array_0[i]) by {
                    assert(v.view_of()->Array_0[i] == items@[i]@);
                }
            }
        }
        Value { hash, inner }
    }

    pub(crate) fn inner_posint(value: u64) -> (v: Value)
        ensures
            v@ == ValueView::PosInt(value),
    {
        let mut data: Vec<u8> = Vec::new();
        data.push(HASH_POSINT);
        push_le(&mut data, value, 8);
        Value::finish(data, ValueInner::PosInt { value })
    }

    pub(crate) fn inner_negint(value: u64) -> (v: Value)
        ensures
            v@ == ValueView::NegInt(value),
    {
        let mut data: Vec<u8> = Vec::new();
        data.push(HASH_NEGINT);
        push_le(&mut data, value, 8);
        Value::finish(data, ValueInner::NegInt { value })
    }

    pub(crate) fn inner_null() -> (v: Value)
        ensures
            v@ == ValueView::Null,
    {
        let mut data: Vec<u8> = Vec::new();
        data.push(HASH_NULL);
        Value::finish(data, ValueInner::Null)
    }

    pub(crate) fn inner_bool(flag: bool) -> (v: Value)
        ensures
            v@ == ValueView::Bool(flag),
    {
        let mut data: Vec<u8> = Vec::new();
        data.push(
            if flag {
                HASH_TRUE
            } else {
                HASH_FALSE
            },
        );
        Value::finish(data, ValueInner::Bool { flag })
    }

    pub(crate) fn inner_float(bits: u64) -> (v: Value)
        ensures
            v@ == ValueView::Float(bits),
    {
        let mut data: Vec<u8> = Vec::new();
        data.push(HASH_FLOAT);
        push_le(&mut data, bits, 8);
        Value::finish(data, ValueInner::Float { bits })
    }

    pub(crate) fn inner_bstr(bytes: Vec<u8>) -> (v: Value)
        ensures
            v@ == ValueView::BStr(bytes@),
    {
        let mut data: Vec<u8> = Vec::new();
        data.push(HASH_BSTR);
        append_bytes(&mut data, bytes.as_slice());
        Value::finish(data, ValueInner::BStr { bytes })
    }

    pub(crate) fn inner_tstr(text: String) -> (v: Value)
        ensures
            v@ == ValueView::TStr(text@),
    {
        let mut data: Vec<u8> = Vec::new();
        data.push(HASH_TSTR);
        append_bytes(&mut data, text.as_str().as_bytes());
        Value::finish(data, ValueInner::TStr { text })
    }

    pub(crate) fn inner_array(items: Vec<Value>) -> (v: Value)
        ensures
            v@ == ValueView::Array(items_view(items@)),
    {
        let mut data: Vec<u8> = Vec::new();
        data.push(HASH_ARRAY);
        let mut i: usize = 0;
        while i < items.len()
            invariant
                i <= items@.len(),
                data@ == seq![HASH_ARRAY] + hashes_of(items@.take(i as int)),
                forall|j: int| 0 <= j < i ==> canonical(#[trigger] items@[j]@),
                forall|j: int| 0 <= j < i ==> (#[trigger] items@[j]).hash@ == view_digest(items@[j]@),
            decreases items@.len() - i,
        {
            let item = &items[i];
            proof {
                use_type_invariant(item);
            }
            append_bytes(&mut data, item.hash.as_slice());
            proof {
                assert(items@.take(i + 1).drop_last() =~= items@.take(i as int));
            }
            i += 1;
        }
        proof {
            assert(items@.take(i as int) =~= items@);
        }
        let v = Value::finish(data, ValueInner::Array { items });
        proof {
            assert(v@->Array_0 =~= items_view(items@));
        }
        v
    }

    pub(crate) fn inner_map(entries: Vec<(String, Value)>) -> (v: Value)
        requires
            keys_ascending(pairs_view(entries@)),
        ensures
            v@ == ValueView::Mapping(pairs_view(entries@)),
    {
        let mut data: Vec<u8> = Vec::new();
        data.push(HASH_MAP);
        let mut i: usize = 0;
        while i < entries.len()
            invariant
                i <= entries@.len(),
                data@ == seq![HASH_MAP] + entries_hash(entries@.take(i as int)),
                forall|j: int| 0 <= j < i ==> canonical(#[trigger] entries@[j].1@),
                forall|j: int|
                    0 <= j < i ==> (#[trigger] entries@[j]).1.hash@ == view_digest(entries@[j].1@),
            decreases entries@.len() - i,
        {
            let item = &entries[i].1;
            proof {
                use_type_invariant(item);
            }
            let key = entries[i].0.as_str().as_bytes();
            push_le(&mut data, key.len() as u64, 8);
            append_bytes(&mut data, key);
            append_bytes(&mut data, entries[i].1.hash.as_slice());
            proof {
                assert(entries@.take(i + 1).drop_last() =~= entries@.take(i as int));
                assert(entries@.take(i + 1).last() == entries@[i as int]);
            }
            i += 1;
        }
        proof {
            assert(entries@.take(i as int) =~= entries@);
        }
        let v = Value::finish(data, ValueInner::Mapping { entries });
        proof {
            assert(v@->Mapping_0 =~= pairs_view(entries@));
        }
        v
    }
}

impl Value {
    /// Creates an integer value. The range is `-2^64..=2^64 - 1`; outside it
    /// the error is `InvalidData`.
    pub fn integer(value: i128) -> (r: Result<Value>)
        ensures
            match r {
                Ok(v) => {
                    &&& -0x1_0000_0000_0000_0000 <= value < 0x1_0000_0000_0000_0000
                    &&& v@ == (if value >= 0 {
                        ValueView::PosInt(value as u64)
                    } else {
                        ValueView::NegInt((-1 - value) as u64)
                    })
                },
                Err(e) => {
                    &&& (value < -0x1_0000_0000_0000_0000 || value >= 0x1_0000_0000_0000_0000)
                    &&& e.spec_kind() == ErrorKind::InvalidData
                },
            },
    {
        if value >= 0 {
            if value >= 0x1_0000_0000_0000_0000 {
                return Err(Error::new(ErrorKind::InvalidData, "value too large"));
            }
            Ok(Value::inner_posint(value as u64))
        } else {
            if value < -0x1_0000_0000_0000_0000 {
                return Err(Error::new(ErrorKind::InvalidData, "value too small"));
            }
            Ok(Value::inner_negint((-1 - value) as u64))
        }
    }

    /// Creates a null value.
    pub fn null() -> (r: Result<Value>)
        ensures
            r matches Ok(v) && v@ == ValueView::Null,
    {
        Ok(Value::inner_null())
    }

    /// Creates a boolean value.
    pub fn bool(value: bool) -> (r: Result<Value>)
        ensures
            r matches Ok(v) && v@ == ValueView::Bool(value),
    {
        Ok(Value::inner_bool(value))
    }

    /// Creates a binary64 float value from its bits; every bit pattern is
    /// accepted, infinities and NaNs included.
    pub fn float_bits(bits: u64) -> (r: Result<Value>)
        ensures
            r matches Ok(v) && v@ == ValueView::Float(bits),
    {
        Ok(Value::inner_float(bits))
    }

    /// Creates a binary string value.
    pub fn bstr(value: Vec<u8>) -> (r: Result<Value>)
        ensures
            r matches Ok(v) && v@ == ValueView::BStr(value@),
    {
        Ok(Value::inner_bstr(value))
    }

    /// Creates a text string value.
    pub fn tstr(value: String) -> (r: Result<Value>)
        ensures
            r matches Ok(v) && v@ == ValueView::TStr(value@),
    {
        Ok(Value::inner_tstr(value))
    }

    /// Creates an array value.
    pub fn array(value: Vec<Value>) -> (r: Result<Value>)
        ensures
            r matches Ok(v) && v@ == ValueView::Array(items_view(value@)),
    {
        Ok(Value::inner_array(value))
    }

    /// Creates a map value from entries taken in order: the keys end up in
    /// ascending byte order, and a later entry replaces an earlier one with
    /// the same key.
    pub fn map(value: Vec<(String, Value)>) -> (r: Result<Value>)
        ensures
            r matches Ok(v) && v@ == ValueView::Mapping(map_from(pairs_view(value@))),
    {
        let ghost src = pairs_view(value@);
        let ghost orig = value@;
        let total = value.len();
        let mut value = value;
        let mut rest: Vec<(String, Value)> = Vec::new();
        while value.len() > 0
            invariant
                orig.len() == value@.len() + rest@.len(),
                value@ == orig.take(value@.len() as int),
                forall|i: int| 0 <= i < rest@.len() ==> #[trigger] rest@[i] == orig[orig.len() - 1 - i],
            decreases value@.len(),
        {
            let e = value.pop().unwrap();
            rest.push(e);
            proof {
                assert(value@ =~= orig.take(value@.len() as int));
            }
        }
        let ghost rev = rest@;
        proof {
            assert forall|i: int| 0 <= i < src.len() implies (#[trigger] rev[i].0@, rev[i].1@) == src[src.len() - 1 - i] by {
                assert(rev[i] == orig[orig.len() - 1 - i]);
            }
            assert(rest@ =~= rev.take(rev.len() - 0));
        }
        let mut entries: Vec<(String, Value)> = Vec::new();
        let mut done: usize = 0;
        while rest.len() > 0
            invariant
                rev.len() == src.len(),
                src.len() == total,
                forall|i: int| 0 <= i < src.len() ==> (#[trigger] rev[i].0@, rev[i].1@) == src[src.len() - 1 - i],
                rest@ == rev.take(rev.len() - done),
                done <= src.len(),
                keys_ascending(pairs_view(entries@)),
                pairs_view(entries@) == map_from(src.take(done as int)),
            decreases rest@.len(),
        {
            let (key, item) = rest.pop().unwrap();
            proof {
                let j = rev.len() - done - 1;
                assert(src.take(done + 1).drop_last() =~= src.take(done as int));
                assert(src.take(done + 1).last() == src[done as int]);
                assert(src[done as int] == (rev[j].0@, rev[j].1@));
                lemma_map_with(pairs_view(entries@), key@, item@);
            }
            entries_set(&mut entries, key, item);
            done += 1;
            proof {
                assert(rest@ =~= rev.take(rev.len() - done));
            }
        }
        proof {
            assert(src.take(done as int) =~= src);
        }
        Ok(Value::inner_map(entries))
    }

    /// The kind of the value.
    pub fn kind(&self) -> (k: ValueKind)
        ensures
            k == kind_of(self@),
    {
        match &self.inner {
            ValueInner::PosInt { .. } | ValueInner::NegInt { .. } => ValueKind::Int,
            ValueInner::Null => ValueKind::Null,
            ValueInner::Bool { .. } => ValueKind::Bool,
            ValueInner::Float { .. } => ValueKind::Float,
            ValueInner::BStr { .. } => ValueKind::BStr,
            ValueInner::TStr { .. } => ValueKind::TStr,
            ValueInner::Array { .. } => ValueKind::Array,
            ValueInner::Mapping { .. } => ValueKind::Mapping,
        }
    }

    pub fn is_null(&self) -> (b: bool)
        ensures
            b == (self@ is Null),
    {
        match &self.inner {
            ValueInner::Null => true,
            _ => false,
        }
    }

    pub fn as_bool(&self) -> (r: Option<bool>)
        ensures
            r == (match self@ {
                ValueView::Bool(b) => Some(b),
                _ => None,
            }),
    {
        match &self.inner {
            ValueInner::Bool { flag } => Some(*flag),
            _ => None,
        }
    }

    /// The integer, for an integer value.
    pub fn as_int(&self) -> (r: Option<i128>)
        ensures
            r == (if kind_of(self@) == ValueKind::Int {
                Some(int_of(self@) as i128)
            } else {
                None
            }),
    {
        match &self.inner {
            ValueInner::PosInt { value } => Some(*value as i128),
            ValueInner::NegInt { value } => Some(-1 - (*value as i128)),
            _ => None,
        }
    }

    /// The bits of the float, for a float value.
    pub fn as_float_bits(&self) -> (r: Option<u64>)
        ensures
            r == (match self@ {
                ValueView::Float(b) => Some(b),
                _ => None,
            }),
    {
        match &self.inner {
            ValueInner::Float { bits } => Some(*bits),
            _ => None,
        }
    }

    pub fn as_bstr(&self) -> (r: Option<&[u8]>)
        ensures
            match self@ {
                ValueView::BStr(b) => r matches Some(s) && s@ == b,
                _ => r is None,
            },
    {
        match &self.inner {
            ValueInner::BStr { bytes } => Some(bytes.as_slice()),
            _ => None,
        }
    }

    pub fn as_tstr(&self) -> (r: Option<&str>)
        ensures
            match self@ {
                ValueView::TStr(t) => r matches Some(s) && s@ == t,
                _ => r is None,
            },
    {
        match &self.inner {
            ValueInner::TStr { text } => Some(text.as_str()),
            _ => None,
        }
    }

    pub fn as_array(&self) -> (r: Option<&[Value]>)
        ensures
            match self@ {
                ValueView::Array(items) => r matches Some(s) && items_view(s@) == items,
                _ => r is None,
            },
    {
        match &self.inner {
            ValueInner::Array { items } => {
                proof {
                    assert(items_view(items@) =~= self@->Array_0);
                }
                Some(items.as_slice())
            },
            _ => None,
        }
    }

    /// The entries, in ascending key order, for a map value.
    pub fn as_map(&self) -> (r: Option<&[(String, Value)]>)
        ensures
            match self@ {
                ValueView::Mapping(m) => r matches Some(s) && pairs_view(s@) == m
                    && keys_ascending(m),
                _ => r is None,
            },
    {
        proof {
            use_type_invariant(self);
        }
        match &self.inner {
            ValueInner::Mapping { entries } => {
                proof {
                    assert(pairs_view(entries@) =~= self@->Mapping_0);
                }
                Some(entries.as_slice())
            },
            _ => None,
        }
    }
}

impl Value {
    /// The representation, matching the view.
    pub(crate) fn inner(&self) -> (r: &ValueInner)
        ensures
            match *r {
                ValueInner::PosInt { value } => self@ == ValueView::PosInt(value),
                ValueInner::NegInt { value } => self@ == ValueView::NegInt(value),
                ValueInner::Null => self@ == ValueView::Null,
                ValueInner::Bool { flag } => self@ == ValueView::Bool(flag),
                ValueInner::Float { bits } => self@ == ValueView::Float(bits),
                ValueInner::BStr { bytes } => self@ == ValueView::BStr(bytes@),
                ValueInner::TStr { text } => self@ == ValueView::TStr(text@),
                ValueInner::Array { items } => self@ == ValueView::Array(items_view(items@)),
                ValueInner::Mapping { entries } => self@ == ValueView::Mapping(
                    pairs_view(entries@),
                ) && keys_ascending(pairs_view(entries@)),
            },
            canonical(self@),
    {
        proof {
            use_type_invariant(self);
            let ghost g = self.inner;
            match g {
                ValueInner::Array { items } => {
                    assert(self@->Array_0 =~= items_view(items@));
                },
                ValueInner::Mapping { entries } => {
                    assert(self@->Mapping_0 =~= pairs_view(entries@));
                },
                _ => {},
            }
        }
        &self.inner
    }
}

impl Value {
    /// The content hash.
    pub(crate) fn hash_bytes(&self) -> (h: [u8; 32])
        ensures
            h@ == view_digest(self@),
    {
        proof {
            use_type_invariant(self);
        }
        self.hash
    }

    /// A copy of the value.
    pub fn duplicate(&self) -> (r: Value)
        ensures
            r@ == self@,
        decreases self@,
    {
        match self.inner() {
            ValueInner::PosInt { value } => Value::inner_posint(*value),
            ValueInner::NegInt { value } => Value::inner_negint(*value),
            ValueInner::Null => Value::inner_null(),
            ValueInner::Bool { flag } => Value::inner_bool(*flag),
            ValueInner::Float { bits } => Value::inner_float(*bits),
            ValueInner::BStr { bytes } => Value::inner_bstr(vstd::slice::slice_to_vec(bytes.as_slice())),
            ValueInner::TStr { text } => Value::inner_tstr(text.clone()),
            ValueInner::Array { items } => {
                let mut out: Vec<Value> = Vec::new();
                let mut i: usize = 0;
                while i < items.len()
                    invariant
                        self@ == ValueView::Array(items_view(items@)),
                        i <= items@.len(),
                        out@.len() == i,
                        forall|j: int| 0 <= j < i ==> (#[trigger] out@[j])@ == items@[j]@,
                    decreases items@.len() - i,
                {
                    proof {
                        assert(items_view(items@)[i as int] == items@[i as int]@);
                        assert(decreases_to!(self@ => self@->Array_0));
                        assert(decreases_to!(self@->Array_0 => self@->Array_0[i as int]));
                    }
                    out.push(items[i].duplicate());
                    i += 1;
                }
                let v = Value::inner_array(out);
                proof {
                    assert(items_view(out@) =~= items_view(items@));
                }
                v
            },
            ValueInner::Mapping { entries } => {
                let mut out: Vec<(String, Value)> = Vec::new();
                let mut i: usize = 0;
                while i < entries.len()
                    invariant
                        self@ == ValueView::Mapping(pairs_view(entries@)),
                        keys_ascending(pairs_view(entries@)),
                        i <= entries@.len(),
                        out@.len() == i,
                        forall|j: int|
                            0 <= j < i ==> (#[trigger] out@[j]).0@ == entries@[j].0@ && out@[j].1@
                                == entries@[j].1@,
                    decreases entries@.len() - i,
                {
                    proof {
                        assert(pairs_view(entries@)[i as int] == (entries@[i as int].0@, entries@[i as int].1@));
                        assert(decreases_to!(self@ => self@->Mapping_0));
                        assert(decreases_to!(self@->Mapping_0 => self@->Mapping_0[i as int]));
                        assert(decreases_to!(self@->Mapping_0[i as int] => self@->Mapping_0[i as int].1));
                    }
                    let item = entries[i].1.duplicate();
                    let key = entries[i].0.clone();
                    out.push((key, item));
                    i += 1;
                }
                proof {
                    assert(pairs_view(out@) =~= pairs_view(entries@));
                }
                Value::inner_map(out)
            },
        }
    }
}

impl Clone for Value {
    fn clone(&self) -> (r: Self)
        ensures
            r@ == self@,
    {
        self.duplicate()
    }
}

impl PartialEq for Value {
    fn eq(&self, other: &Self) -> (r: bool) {
        proof {
            use_type_invariant(self);
            use_type_invariant(other);
        }
        let mut i: usize = 0;
        while i < 32
            invariant
                i <= 32,
                self.hash@.len() == 32,
                other.hash@.len() == 32,
                self.hash@ == view_digest(self@),
                other.hash@ == view_digest(other@),
                forall|j: int| 0 <= j < i ==> self.hash@[j] == other.hash@[j],
            decreases 32 - i,
        {
            if self.hash[i] != other.hash[i] {
                return false;
            }
            i += 1;
        }
        proof {
            assert(self.hash@ =~= other.hash@);
        }
        true
    }
}

impl vstd::std_specs::cmp::PartialEqSpecImpl for Value {
    open spec fn obeys_eq_spec() -> bool {
        true
    }

    open spec fn eq_spec(&self, other: &Value) -> bool {
        view_digest(self@) == view_digest(other@)
    }
}

impl View for Value {
    type V = ValueView;

    open spec fn view(&self) -> ValueView {
        self.view_of()
    }
}

/// The value of an integer in the range `-2^64..2^64`.
pub open spec fn int_value(value: int) -> ValueView {
    if value >= 0 {
        ValueView::PosInt(value as u64)
    } else {
        ValueView::NegInt((-1 - value) as u64)
    }
}

/// Whether an integer is in the range of integer values, `-2^64..2^64`.
pub open spec fn int_in_range(value: int) -> bool {
    -0x1_0000_0000_0000_0000 <= value < 0x1_0000_0000_0000_0000
}

/// Law: an integer value stands for the integer it was made from, and an
/// integer value is the one made from the integer it stands for: the
/// non-negative integers are `PosInt`, the negative ones `NegInt`.
pub proof fn lemma_int_value(i: int, v: ValueView)
    ensures
        int_in_range(i) ==> int_of(int_value(i)) == i && kind_of(int_value(i)) == ValueKind::Int,
        int_in_range(i) ==> (int_value(i) is PosInt <==> i >= 0),
        (v is PosInt || v is NegInt) ==> int_in_range(int_of(v)) && int_value(int_of(v)) == v,
{
}

impl Value {
    /// Applies `f` to the integer of an integer value and returns the
    /// integer value of the result; an error of `f` is returned as it is.
    /// Another kind of value is an `UnexpectedType` error, a result out of
    /// range an `InvalidData` one.
    pub fn as_int_and_modify<F>(&self, f: F) -> (r: Result<Value>)
        where
            F: FnOnce(&mut i128) -> Result<()>,
        requires
            forall|x: &mut i128| #[trigger] f.requires((x,)),
        ensures
            kind_of(self@) != ValueKind::Int ==> (r matches Err(e) && e.spec_kind()
                == ErrorKind::UnexpectedType),
            kind_of(self@) == ValueKind::Int ==> exists|x: &mut i128, out: Result<()>|
                *x == int_of(self@) && #[trigger] f.ensures((x,), out) && match out {
                    Ok(()) => if int_in_range(*final(x) as int) {
                        r matches Ok(v) && v@ == int_value(*final(x) as int)
                    } else {
                        r matches Err(e) && e.spec_kind() == ErrorKind::InvalidData
                    },
                    Err(e) => r == Result::<Value>::Err(e),
                },
    {
        let mut inner: i128 = match &self.inner {
            ValueInner::PosInt { value } => *value as i128,
            ValueInner::NegInt { value } => -1 - (*value as i128),
            _ => {
                return Err(Error::new(ErrorKind::UnexpectedType, "expected an int value"));
            },
        };
        f(&mut inner)?;
        Value::integer(inner)
    }

    /// Applies `f` to the boolean of a bool value and returns the bool value
    /// of the result; an error of `f` is returned as it is. Another kind of
    /// value is an `UnexpectedType` error.
    pub fn as_bool_and_modify<F>(&self, f: F) -> (r: Result<Value>)
        where
            F: FnOnce(&mut bool) -> Result<()>,
        requires
            forall|x: &mut bool| #[trigger] f.requires((x,)),
        ensures
            !(self@ is Bool) ==> (r matches Err(e) && e.spec_kind() == ErrorKind::UnexpectedType),
            self@ is Bool ==> exists|x: &mut bool, out: Result<()>|
                *x == self@->Bool_0 && #[trigger] f.ensures((x,), out) && match out {
                    Ok(()) => r matches Ok(v) && v@ == ValueView::Bool(*final(x)),
                    Err(e) => r == Result::<Value>::Err(e),
                },
    {
        match &self.inner {
            ValueInner::Bool { flag } => {
                let mut inner = *flag;
                f(&mut inner)?;
                Ok(Value::inner_bool(inner))
            },
            _ => Err(Error::new(ErrorKind::UnexpectedType, "expected a bool value")),
        }
    }

    /// Applies `f` to a copy of the bytes of a binary value and returns the
    /// binary value of the result; an error of `f` is returned as it is.
    /// Another kind of value is an `UnexpectedType` error.
    pub fn as_bstr_and_modify<F>(&self, f: F) -> (r: Result<Value>)
        where
            F: FnOnce(&mut Vec<u8>) -> Result<()>,
        requires
            forall|x: &mut Vec<u8>| #[trigger] f.requires((x,)),
        ensures
            !(self@ is BStr) ==> (r matches Err(e) && e.spec_kind() == ErrorKind::UnexpectedType),
            self@ is BStr ==> exists|x: &mut Vec<u8>, out: Result<()>|
                (*x)@ == self@->BStr_0 && #[trigger] f.ensures((x,), out) && match out {
                    Ok(()) => r matches Ok(v) && v@ == ValueView::BStr((*final(x))@),
                    Err(e) => r == Result::<Value>::Err(e),
                },
    {
        match &self.inner {
            ValueInner::BStr { bytes } => {
                let mut inner = vstd::slice::slice_to_vec(bytes.as_slice());
                f(&mut inner)?;
                Ok(Value::inner_bstr(inner))
            },
            _ => Err(Error::new(ErrorKind::UnexpectedType, "expected a bstr value")),
        }
    }

    /// Applies `f` to a copy of the text of a text value and returns the
    /// text value of the result; an error of `f` is returned as it is.
    /// Another kind of value is an `UnexpectedType` error.
    pub fn as_tstr_and_modify<F>(&self, f: F) -> (r: Result<Value>)
        where
            F: FnOnce(&mut String) -> Result<()>,
        requires
            forall|x: &mut String| #[trigger] f.requires((x,)),
        ensures
            !(self@ is TStr) ==> (r matches Err(e) && e.spec_kind() == ErrorKind::UnexpectedType),
            self@ is TStr ==> exists|x: &mut String, out: Result<()>|
                (*x)@ == self@->TStr_0 && #[trigger] f.ensures((x,), out) && match out {
                    Ok(()) => r matches Ok(v) && v@ == ValueView::TStr((*final(x))@),
                    Err(e) => r == Result::<Value>::Err(e),
                },
    {
        match &self.inner {
            ValueInner::TStr { text } => {
                let mut inner = text.clone();
                f(&mut inner)?;
                Ok(Value::inner_tstr(inner))
            },
            _ => Err(Error::new(ErrorKind::UnexpectedType, "expected a tstr value")),
        }
    }

    /// Applies `f` to a copy of the items of an array value and returns the
    /// array value of the result; an error of `f` is returned as it is.
    /// Another kind of value is an `UnexpectedType` error.
    pub fn as_array_and_modify<F>(&self, f: F) -> (r: Result<Value>)
        where
            F: FnOnce(&mut Vec<Value>) -> Result<()>,
        requires
            forall|x: &mut Vec<Value>| #[trigger] f.requires((x,)),
        ensures
            !(self@ is Array) ==> (r matches Err(e) && e.spec_kind() == ErrorKind::UnexpectedType),
            self@ is Array ==> exists|x: &mut Vec<Value>, out: Result<()>|
                items_view((*x)@) == self@->Array_0 && #[trigger] f.ensures((x,), out) && match out {
                    Ok(()) => r matches Ok(v) && v@ == ValueView::Array(items_view((*final(x))@)),
                    Err(e) => r == Result::<Value>::Err(e),
                },
    {
        match self.inner() {
            ValueInner::Array { items } => {
                let mut inner: Vec<Value> = Vec::new();
                let mut i: usize = 0;
                while i < items.len()
                    invariant
                        i <= items@.len(),
                        inner@.len() == i,
                        forall|j: int| 0 <= j < i ==> (#[trigger] inner@[j])@ == items@[j]@,
                    decreases items@.len() - i,
                {
                    inner.push(items[i].duplicate());
                    i += 1;
                }
                proof {
                    assert(items_view(inner@) =~= items_view(items@));
                }
                f(&mut inner)?;
                Ok(Value::inner_array(inner))
            },
            _ => Err(Error::new(ErrorKind::UnexpectedType, "expected an array value")),
        }
    }

    /// Applies `f` to a copy of the entries of a map value, in ascending key
    /// order, and returns the map value built from the result as
    /// [`Value::map`] builds it; an error of `f` is returned as it is.
    /// Another kind of value is an `UnexpectedType` error.
    pub fn as_map_and_modify<F>(&self, f: F) -> (r: Result<Value>)
        where
            F: FnOnce(&mut Vec<(String, Value)>) -> Result<()>,
        requires
            forall|x: &mut Vec<(String, Value)>| #[trigger] f.requires((x,)),
        ensures
            !(self@ is Mapping) ==> (r matches Err(e) && e.spec_kind() == ErrorKind::UnexpectedType),
            self@ is Mapping ==> exists|x: &mut Vec<(String, Value)>, out: Result<()>|
                pairs_view((*x)@) == self@->Mapping_0 && #[trigger] f.ensures((x,), out) && match out {
                    Ok(()) => r matches Ok(v) && v@ == ValueView::Mapping(
                        map_from(pairs_view((*final(x))@)),
                    ),
                    Err(e) => r == Result::<Value>::Err(e),
                },
    {
        match self.inner() {
            ValueInner::Mapping { entries } => {
                let mut inner: Vec<(String, Value)> = Vec::new();
                let mut i: usize = 0;
                while i < entries.len()
                    invariant
                        i <= entries@.len(),
                        inner@.len() == i,
                        forall|j: int|
                            0 <= j < i ==> (#[trigger] inner@[j]).0@ == entries@[j].0@ && inner@[j].1@
                                == entries@[j].1@,
                    decreases entries@.len() - i,
                {
                    inner.push((entries[i].0.clone(), entries[i].1.duplicate()));
                    i += 1;
                }
                proof {
                    assert(pairs_view(inner@) =~= pairs_view(entries@));
                }
                f(&mut inner)?;
                Value::map(inner)
            },
            _ => Err(Error::new(ErrorKind::UnexpectedType, "expected a map value")),
        }
    }
}

} // verus!
