//! Errors: a kind, a message, the contexts the error passed through and
//! metadata attached on the way.

use vstd::prelude::*;
use vstd::string::StringExecFns;

verus! {

/// The category of an [`Error`].
#[derive(Debug, Clone, Copy, PartialEq, Eq, Structural)]
pub enum ErrorKind {
    /// An internal error occurred.
    Internal,
    /// The data is invalid.
    InvalidData,
    /// A value has another type than the one expected.
    UnexpectedType,
}

/// The name of a kind, as errors print it.
pub open spec fn kind_name(kind: ErrorKind) -> Seq<char> {
    match kind {
        ErrorKind::Internal => "Internal"@,
        ErrorKind::InvalidData => "InvalidData"@,
        ErrorKind::UnexpectedType => "UnexpectedType"@,
    }
}

/// The lexicographic order of byte strings: negative, zero or positive.
pub open spec fn lex_order(a: Seq<u8>, b: Seq<u8>) -> int
    decreases a.len(),
{
    if a.len() == 0 {
        if b.len() == 0 {
            0
        } else {
            -1
        }
    } else if b.len() == 0 {
        1
    } else if a[0] < b[0] {
        -1
    } else if a[0] > b[0] {
        1
    } else {
        lex_order(a.drop_first(), b.drop_first())
    }
}

pub proof fn lemma_lex_order_eq(a: Seq<u8>, b: Seq<u8>)
    ensures
        lex_order(a, b) == 0 <==> a == b,
    decreases a.len(),
{
    if a.len() > 0 && b.len() > 0 && a[0] == b[0] {
        lemma_lex_order_eq(a.drop_first(), b.drop_first());
        if a.drop_first() == b.drop_first() {
            assert(a =~= seq![a[0]] + a.drop_first());
            assert(b =~= seq![b[0]] + b.drop_first());
        }
    } else if a.len() == 0 && b.len() == 0 {
        assert(a =~= b);
    } else if a == b {
        assert(a.len() == b.len());
        assert(a[0] == b[0]);
    }
}

/// Law: `lex_order` is the unsigned byte-lexicographic order. `a` comes
/// before `b` exactly when, at some position up to which the two agree,
/// `a` ends while `b` goes on, or `a`'s byte, taken unsigned, is smaller
/// than `b`'s.
pub proof fn lemma_lex_order_first_difference(a: Seq<u8>, b: Seq<u8>)
    ensures
        lex_order(a, b) < 0 <==> exists|i: int|
            0 <= i <= a.len() && i <= b.len() && #[trigger] a.take(i) == b.take(i) && ((i == a.len()
                && i < b.len()) || (i < a.len() && i < b.len() && a[i] < b[i])),
    decreases a.len(),
{
    if a.len() == 0 || b.len() == 0 || a[0] != b[0] {
        assert(a.take(0) =~= b.take(0));
        if lex_order(a, b) >= 0 {
            assert forall|i: int|
                0 <= i <= a.len() && i <= b.len() && #[trigger] a.take(i) == b.take(i) implies !((i
                    == a.len() && i < b.len()) || (i < a.len() && i < b.len() && a[i] < b[i])) by {
                if i > 0 {
                    assert(a.take(i)[0] == b.take(i)[0]);
                }
            }
        }
    } else {
        let a1 = a.drop_first();
        let b1 = b.drop_first();
        lemma_lex_order_first_difference(a1, b1);
        if lex_order(a, b) < 0 {
            let i1 = choose|i: int|
                0 <= i <= a1.len() && i <= b1.len() && #[trigger] a1.take(i) == b1.take(i) && ((i
                    == a1.len() && i < b1.len()) || (i < a1.len() && i < b1.len() && a1[i] < b1[i]));
            assert(a.take(i1 + 1) =~= seq![a[0]] + a1.take(i1));
            assert(b.take(i1 + 1) =~= seq![b[0]] + b1.take(i1));
            assert(a.take(i1 + 1) == b.take(i1 + 1));
        } else {
            assert forall|i: int|
                0 <= i <= a.len() && i <= b.len() && #[trigger] a.take(i) == b.take(i) implies !((i
                    == a.len() && i < b.len()) || (i < a.len() && i < b.len() && a[i] < b[i])) by {
                if i > 0 {
                    assert(a1.take(i - 1) =~= a.take(i).drop_first());
                    assert(b1.take(i - 1) =~= b.take(i).drop_first());
                    assert(a1.take(i - 1) == b1.take(i - 1));
                    if i < a.len() && i < b.len() {
                        assert(a1[i - 1] == a[i]);
                        assert(b1[i - 1] == b[i]);
                    }
                }
            }
        }
    }
}

/// Swapping the operands negates the order.
pub proof fn lemma_lex_order_antisym(a: Seq<u8>, b: Seq<u8>)
    ensures
        lex_order(a, b) == -lex_order(b, a),
        -1 <= lex_order(a, b) <= 1,
    decreases a.len(),
{
    if a.len() > 0 && b.len() > 0 && a[0] == b[0] {
        lemma_lex_order_antisym(a.drop_first(), b.drop_first());
    }
}

/// The order is transitive.
pub proof fn lemma_lex_order_trans(a: Seq<u8>, b: Seq<u8>, c: Seq<u8>)
    requires
        lex_order(a, b) < 0,
        lex_order(b, c) < 0,
    ensures
        lex_order(a, c) < 0,
    decreases a.len(),
{
    if a.len() > 0 && b.len() > 0 && c.len() > 0 && a[0] == b[0] && b[0] == c[0] {
        lemma_lex_order_trans(a.drop_first(), b.drop_first(), c.drop_first());
    }
}

/// Compares two byte strings lexicographically.
pub fn compare_bytes(a: &[u8], b: &[u8]) -> (c: i8)
    ensures
        c as int == lex_order(a@, b@),
{
    let mut i: usize = 0;
    proof {
        assert(a@.skip(0) =~= a@);
        assert(b@.skip(0) =~= b@);
    }
    while i < a.len() && i < b.len()
        invariant
            i <= a@.len(),
            i <= b@.len(),
            lex_order(a@, b@) == lex_order(a@.skip(i as int), b@.skip(i as int)),
        decreases a@.len() - i,
    {
        if a[i] < b[i] {
            return -1;
        }
        if a[i] > b[i] {
            return 1;
        }
        proof {
            assert(a@.skip(i as int).drop_first() =~= a@.skip(i + 1));
            assert(b@.skip(i as int).drop_first() =~= b@.skip(i + 1));
        }
        i += 1;
    }
    if i < a.len() {
        1
    } else if i < b.len() {
        -1
    } else {
        0
    }
}

/// The metadata after setting `key` to `value`: an equal key has its value
/// replaced, a new key goes where it keeps the keys in byte order.
pub open spec fn metadata_with(
    m: Seq<(Seq<u8>, Seq<char>)>,
    key: Seq<u8>,
    value: Seq<char>,
) -> Seq<(Seq<u8>, Seq<char>)>
    decreases m.len(),
{
    if m.len() == 0 {
        seq![(key, value)]
    } else if lex_order(key, m[0].0) == 0 {
        seq![(key, value)] + m.drop_first()
    } else if lex_order(key, m[0].0) < 0 {
        seq![(key, value)] + m
    } else {
        seq![m[0]] + metadata_with(m.drop_first(), key, value)
    }
}

/// The contexts below `hi` and from `lo` up, the latest first, each
/// followed by `": "`.
pub open spec fn contexts_range(c: Seq<Seq<char>>, hi: int, lo: int) -> Seq<char>
    decreases hi - lo,
{
    if hi <= lo {
        Seq::empty()
    } else {
        c[hi - 1] + ": "@ + contexts_range(c, hi - 1, lo)
    }
}

/// The contexts, the latest first, each followed by `": "`.
pub open spec fn contexts_text(c: Seq<Seq<char>>) -> Seq<char> {
    contexts_range(c, c.len() as int, 0)
}

proof fn lemma_contexts_step(c: Seq<Seq<char>>, hi: int, lo: int)
    requires
        lo < hi,
    ensures
        contexts_range(c, hi, lo) == contexts_range(c, hi, lo + 1) + c[lo] + ": "@,
    decreases hi - lo,
{
    if hi - 1 > lo {
        lemma_contexts_step(c, hi - 1, lo);
        assert(contexts_range(c, hi, lo) =~= contexts_range(c, hi, lo + 1) + c[lo] + ": "@);
    } else {
        assert(contexts_range(c, hi - 1, lo) =~= Seq::<char>::empty());
        assert(contexts_range(c, hi, lo + 1) =~= Seq::<char>::empty());
        assert(contexts_range(c, hi, lo) =~= contexts_range(c, hi, lo + 1) + c[lo] + ": "@);
    }
}

/// The metadata entries `key=value`, separated by `", "`.
pub open spec fn metadata_text(m: Seq<(Seq<char>, Seq<char>)>) -> Seq<char>
    decreases m.len(),
{
    if m.len() == 0 {
        Seq::empty()
    } else if m.len() == 1 {
        m[0].0 + "="@ + m[0].1
    } else {
        metadata_text(m.drop_last()) + ", "@ + m.last().0 + "="@ + m.last().1
    }
}

/// A doxsync error.
#[derive(Debug)]
pub struct Error {
    kind: ErrorKind,
    message: &'static str,
    context: Vec<&'static str>,
    metadata: Vec<(&'static str, String)>,
}

/// A result whose error is an [`Error`].
pub type Result<T> = std::result::Result<T, Error>;

impl Error {
    /// The kind.
    pub closed spec fn spec_kind(&self) -> ErrorKind {
        self.kind
    }

    /// The message.
    pub closed spec fn spec_message(&self) -> Seq<char> {
        self.message@
    }

    /// The contexts, in the order they were added.
    pub closed spec fn spec_context(&self) -> Seq<Seq<char>> {
        self.context@.map_values(|c: &'static str| c@)
    }

    /// The metadata in byte order of the keys, each key by its UTF-8 bytes.
    pub closed spec fn spec_metadata(&self) -> Seq<(Seq<u8>, Seq<char>)> {
        self.metadata@.map_values(|e: (&'static str, String)| (vstd::utf8::encode_utf8(e.0@), e.1@))
    }

    /// The metadata in byte order of the keys, each key as text.
    pub open spec fn spec_metadata_chars(&self) -> Seq<(Seq<char>, Seq<char>)> {
        self.spec_metadata().map_values(
            |e: (Seq<u8>, Seq<char>)| (vstd::utf8::decode_utf8(e.0), e.1),
        )
    }

    /// The text of the error: `[kind] `, the contexts from the last added,
    /// the message, and the metadata in brackets.
    pub open spec fn text(&self) -> Seq<char> {
        "["@ + kind_name(self.spec_kind()) + "] "@ + contexts_text(self.spec_context())
            + self.spec_message() + if self.spec_metadata_chars().len() == 0 {
            Seq::empty()
        } else {
            " ("@ + metadata_text(self.spec_metadata_chars()) + ")"@
        }
    }

    /// An error of `kind` with `message`.
    pub fn new(kind: ErrorKind, message: &'static str) -> (e: Self)
        ensures
            e.spec_kind() == kind,
            e.spec_message() == message@,
            e.spec_context() == Seq::<Seq<char>>::empty(),
            e.spec_metadata() == Seq::<(Seq<u8>, Seq<char>)>::empty(),
    {
        let e = Error { kind, message, context: Vec::new(), metadata: Vec::new() };
        proof {
            assert(e.spec_context() =~= Seq::<Seq<char>>::empty());
            assert(e.spec_metadata() =~= Seq::<(Seq<u8>, Seq<char>)>::empty());
        }
        e
    }

    /// The kind.
    pub fn kind(&self) -> (k: ErrorKind)
        ensures
            k == self.spec_kind(),
    {
        self.kind
    }

    /// The message.
    pub fn message(&self) -> (m: &'static str)
        ensures
            m@ == self.spec_message(),
    {
        self.message
    }

    /// Adds the context in which the error occurred.
    pub fn with_context(self, context: &'static str) -> (e: Self)
        ensures
            e.spec_kind() == self.spec_kind(),
            e.spec_message() == self.spec_message(),
            e.spec_context() == self.spec_context().push(context@),
            e.spec_metadata() == self.spec_metadata(),
    {
        let mut e = self;
        e.context.push(context);
        proof {
            assert(e.spec_context() =~= self.spec_context().push(context@));
        }
        e
    }

    /// Attaches `value`, as text, under `key`; an equal key has its value
    /// replaced.
    pub fn with_metadata<T: std::fmt::Display>(self, key: &'static str, value: T) -> (e: Self)
        ensures
            e.spec_kind() == self.spec_kind(),
            e.spec_message() == self.spec_message(),
            e.spec_context() == self.spec_context(),
            exists|s: String|
                vstd::string::to_string_from_display_ensures::<T>(&value, s)
                    && e.spec_metadata() == metadata_with(
                    self.spec_metadata(),
                    vstd::utf8::encode_utf8(key@),
                    s@,
                ),
    {
        let text = value.to_string();
        let ghost text_g = text;
        let ghost text_v = text@;
        let mut e = self;
        let mut i: usize = 0;
        let kb = key.as_bytes();
        proof {
            assert(self.spec_metadata().skip(0) =~= self.spec_metadata());
            assert(self.spec_metadata().take(0) =~= Seq::<(Seq<u8>, Seq<char>)>::empty());
        }
        while i < e.metadata.len()
            invariant
                e.kind == self.kind,
                e.message == self.message,
                e.context == self.context,
                e.metadata == self.metadata,
                kb@ == vstd::utf8::encode_utf8(key@),
                text_g == text,
                text_v == text@,
                vstd::string::to_string_from_display_ensures::<T>(&value, text_g),
                i <= self.metadata@.len(),
                metadata_with(self.spec_metadata(), kb@, text_v) == self.spec_metadata().take(
                    i as int,
                ) + metadata_with(self.spec_metadata().skip(i as int), kb@, text_v),
            decreases self.metadata@.len() - i,
        {
            let c = compare_bytes(kb, e.metadata[i].0.as_bytes());
            let ghost rest = self.spec_metadata().skip(i as int);
            proof {
                assert(rest[0] == self.spec_metadata()[i as int]);
            }
            if c == 0 {
                let mut entry = (key, text);
                e.metadata.set_and_swap(i, &mut entry);
                proof {
                    assert(e.metadata@ == self.metadata@.update(i as int, (key, text_g)));
                    assert forall|j: int| 0 <= j < e.metadata@.len() implies #[trigger] e.spec_metadata()[j] == (self.spec_metadata().take(i as int) + (seq![
                        (kb@, text_v),
                    ] + rest.drop_first()))[j] by {
                        if j > i {
                            assert(rest.drop_first()[j - i - 1] == self.spec_metadata()[j]);
                        }
                    }
                    assert(e.spec_metadata() =~= self.spec_metadata().take(i as int) + (seq![
                        (kb@, text_v),
                    ] + rest.drop_first()));
                    assert(vstd::string::to_string_from_display_ensures::<T>(&value, text_g));
                }
                return e;
            }
            if c < 0 {
                e.metadata.insert(i, (key, text));
                proof {
                    assert(e.spec_metadata() =~= self.spec_metadata().take(i as int) + (seq![
                        (kb@, text_v),
                    ] + rest));
                    assert(vstd::string::to_string_from_display_ensures::<T>(&value, text_g));
                }
                return e;
            }
            proof {
                assert(rest.drop_first() =~= self.spec_metadata().skip(i + 1));
                assert(self.spec_metadata().take(i + 1) =~= self.spec_metadata().take(i as int)
                    + seq![rest[0]]);
            }
            i += 1;
        }
        e.metadata.push((key, text));
        proof {
            assert(self.spec_metadata().skip(i as int) =~= Seq::<(Seq<u8>, Seq<char>)>::empty());
            assert(self.spec_metadata().take(i as int) =~= self.spec_metadata());
            assert(e.spec_metadata() =~= self.spec_metadata() + seq![(kb@, text_v)]);
            assert(vstd::string::to_string_from_display_ensures::<T>(&value, text_g));
        }
        e
    }

    /// The text of the error, as [`Error::text`] describes it.
    pub fn render(&self) -> (s: String)
        ensures
            s@ == self.text(),
    {
        let mut out = String::from_str("[");
        out.append(kind_str(self.kind));
        out.append("] ");
        let ghost prefix = out@;
        let ghost c = self.spec_context();
        let mut i = self.context.len();
        while i > 0
            invariant
                i <= self.context@.len(),
                c == self.spec_context(),
                out@ == prefix + contexts_range(c, c.len() as int, i as int),
            decreases i,
        {
            i -= 1;
            out.append(self.context[i]);
            out.append(": ");
            proof {
                lemma_contexts_step(c, c.len() as int, i as int);
                assert(out@ =~= prefix + contexts_range(c, c.len() as int, i as int));
            }
        }
        out.append(self.message);
        if self.metadata.len() > 0 {
            out.append(" (");
            let ghost prefix2 = out@;
            let ghost m = self.spec_metadata_chars();
            let mut j: usize = 0;
            while j < self.metadata.len()
                invariant
                    j <= self.metadata@.len(),
                    m == self.spec_metadata_chars(),
                    out@ == prefix2 + metadata_text(m.take(j as int)),
                decreases self.metadata@.len() - j,
            {
                if j > 0 {
                    out.append(", ");
                }
                out.append(self.metadata[j].0);
                out.append("=");
                out.append(self.metadata[j].1.as_str());
                proof {
                    vstd::utf8::encode_utf8_decode_utf8(self.metadata@[j as int].0@);
                    assert(m[j as int] == (self.metadata@[j as int].0@, self.metadata@[j as int].1@));
                    assert(m.take(j + 1).drop_last() =~= m.take(j as int));
                    if j == 0 {
                        assert(metadata_text(m.take(0)) =~= Seq::<char>::empty());
                    }
                    assert(out@ =~= prefix2 + metadata_text(m.take(j + 1)));
                }
                j += 1;
            }
            out.append(")");
            proof {
                assert(m.take(j as int) =~= m);
            }
        }
        proof {
            assert(out@ =~= self.text());
        }
        out
    }
}

/// The name of `kind`.
pub fn kind_str(kind: ErrorKind) -> (s: &'static str)
    ensures
        s@ == kind_name(kind),
{
    match kind {
        ErrorKind::Internal => "Internal",
        ErrorKind::InvalidData => "InvalidData",
        ErrorKind::UnexpectedType => "UnexpectedType",
    }
}

} // verus!
