//! Encoding of structured keys into the flat string keys of the meta-service.
//!
//! A key is a prefix followed by segments, joined with `/`. Each segment is
//! escaped so that it never holds a `/`: ASCII digits, letters and `_` stay as
//! they are, every other byte becomes `%` and two lower-case hex digits.
use vstd::prelude::*;
use vstd::utf8::*;

verus! {

/// The byte `/` that separates the segments of a key.
pub const SLASH: u8 = 0x2f;

/// The byte `%` that starts an escaped byte.
pub const PERCENT: u8 = 0x25;

/// Bytes that escaping keeps as they are: ASCII digits, letters and `_`.
pub open spec fn is_plain_byte(b: u8) -> bool {
    (0x30 <= b && b <= 0x39) || (0x41 <= b && b <= 0x5a) || (0x61 <= b && b <= 0x7a) || b == 0x5f
}

/// The lower-case hex digit for a value below 16.
pub open spec fn hex_char(n: u8) -> u8 {
    if n < 10 {
        (0x30 + n) as u8
    } else {
        (0x61 + n - 10) as u8
    }
}

/// The value of a lower-case hex digit, if the byte is one.
pub open spec fn hex_value(c: u8) -> Option<u8> {
    if 0x30 <= c && c <= 0x39 {
        Some((c - 0x30) as u8)
    } else if 0x61 <= c && c <= 0x66 {
        Some((c - 0x61 + 10) as u8)
    } else {
        None
    }
}

/// How one byte is written in an escaped segment.
pub open spec fn escape_byte(b: u8) -> Seq<u8> {
    if is_plain_byte(b) {
        seq![b]
    } else {
        seq![PERCENT, hex_char(b / 16), hex_char(b % 16)]
    }
}

/// The escaped form of a byte sequence: each byte escaped in turn.
pub open spec fn escape_bytes(s: Seq<u8>) -> Seq<u8>
    decreases s.len(),
{
    if s.len() == 0 {
        Seq::empty()
    } else {
        escape_byte(s[0]) + escape_bytes(s.skip(1))
    }
}

/// Puts `prefix` in front of an optional sequence.
pub open spec fn prepend_opt(prefix: Seq<u8>, rest: Option<Seq<u8>>) -> Option<Seq<u8>> {
    match rest {
        Some(r) => Some(prefix + r),
        None => None,
    }
}

/// The bytes that an escaped segment stands for, or `None` where a `%` is not
/// followed by two lower-case hex digits.
pub open spec fn unescape_bytes(s: Seq<u8>) -> Option<Seq<u8>>
    decreases s.len(),
{
    if s.len() == 0 {
        Some(Seq::empty())
    } else if s[0] == PERCENT {
        if s.len() >= 3 && hex_value(s[1]) is Some && hex_value(s[2]) is Some {
            prepend_opt(
                seq![(hex_value(s[1])->0 * 16 + hex_value(s[2])->0) as u8],
                unescape_bytes(s.skip(3)),
            )
        } else {
            None
        }
    } else {
        prepend_opt(seq![s[0]], unescape_bytes(s.skip(1)))
    }
}

/// No byte of `s` is a `/`.
pub open spec fn slash_free(s: Seq<u8>) -> bool {
    forall|i: int| 0 <= i < s.len() ==> s[i] != SLASH
}

/// Every byte of `s` is ASCII.
pub open spec fn all_ascii(s: Seq<u8>) -> bool {
    forall|i: int| 0 <= i < s.len() ==> s[i] < 0x80
}

/// Escaping distributes over concatenation.
pub proof fn lemma_escape_concat(a: Seq<u8>, b: Seq<u8>)
    ensures
        escape_bytes(a + b) == escape_bytes(a) + escape_bytes(b),
    decreases a.len(),
{
    if a.len() == 0 {
        assert(a + b =~= b);
        assert(escape_bytes(a) + escape_bytes(b) =~= escape_bytes(b));
    } else {
        assert((a + b)[0] == a[0]);
        assert((a + b).skip(1) =~= a.skip(1) + b);
        lemma_escape_concat(a.skip(1), b);
        assert(escape_bytes(a + b) =~= escape_byte(a[0]) + (escape_bytes(a.skip(1))
            + escape_bytes(b)));
    }
}

proof fn lemma_hex_roundtrip(n: u8)
    requires
        n < 16,
    ensures
        hex_value(hex_char(n)) == Some(n),
        hex_char(n) != SLASH,
        hex_char(n) != PERCENT,
        hex_char(n) < 0x80,
{
}

/// An escaped sequence holds no `/` and only ASCII bytes.
pub proof fn lemma_escape_slash_free_ascii(s: Seq<u8>)
    ensures
        slash_free(escape_bytes(s)),
        all_ascii(escape_bytes(s)),
    decreases s.len(),
{
    if s.len() > 0 {
        lemma_escape_slash_free_ascii(s.skip(1));
        let b = s[0];
        if !is_plain_byte(b) {
            lemma_hex_roundtrip(b / 16);
            lemma_hex_roundtrip(b % 16);
        }
        let e = escape_byte(b);
        let r = escape_bytes(s.skip(1));
        assert forall|i: int| 0 <= i < (e + r).len() implies (e + r)[i] != SLASH && (e + r)[i]
            < 0x80 by {
            if i < e.len() {
            } else {
                assert((e + r)[i] == r[i - e.len()]);
            }
        }
    }
}

/// Unescaping undoes escaping.
pub proof fn lemma_unescape_escape(s: Seq<u8>)
    ensures
        unescape_bytes(escape_bytes(s)) == Some(s),
    decreases s.len(),
{
    if s.len() == 0 {
    } else {
        let b = s[0];
        let rest = escape_bytes(s.skip(1));
        lemma_unescape_escape(s.skip(1));
        let e = escape_bytes(s);
        assert(e == escape_byte(b) + rest);
        if is_plain_byte(b) {
            assert(e[0] == b);
            assert(e.skip(1) =~= rest);
            assert(seq![b] + s.skip(1) =~= s);
        } else {
            lemma_hex_roundtrip(b / 16);
            lemma_hex_roundtrip(b % 16);
            assert(e[0] == PERCENT);
            assert(e[1] == hex_char(b / 16));
            assert(e[2] == hex_char(b % 16));
            assert(e.skip(3) =~= rest);
            assert(((b / 16) * 16 + b % 16) as u8 == b);
            assert(seq![b] + s.skip(1) =~= s);
        }
    }
}

/// Escaping keeps a byte as it is exactly when it is an ASCII digit, letter or
/// `_`; every other byte becomes `%` and two lower-case hex digits whose value
/// is the byte.
pub proof fn lemma_escape_one_byte(b: u8)
    ensures
        ((0x30 <= b <= 0x39) || (0x41 <= b <= 0x5a) || (0x61 <= b <= 0x7a) || b == 0x5f)
            ==> escape_bytes(seq![b]) == seq![b],
        !((0x30 <= b <= 0x39) || (0x41 <= b <= 0x5a) || (0x61 <= b <= 0x7a) || b == 0x5f) ==> {
            let e = escape_bytes(seq![b]);
            let digit = |c: u8|
                if 0x30 <= c <= 0x39 {
                    c - 0x30
                } else {
                    c - 0x61 + 10
                };
            &&& e.len() == 3
            &&& e[0] == 0x25
            &&& (0x30 <= e[1] <= 0x39 || 0x61 <= e[1] <= 0x66)
            &&& (0x30 <= e[2] <= 0x39 || 0x61 <= e[2] <= 0x66)
            &&& digit(e[1]) * 16 + digit(e[2]) == b
        },
{
    assert(seq![b].skip(1) =~= Seq::<u8>::empty());
    assert(escape_bytes(seq![b]) == escape_byte(b) + escape_bytes(seq![b].skip(1)));
    assert(escape_byte(b) + Seq::<u8>::empty() =~= escape_byte(b));
}

/// Reading a literal succeeds exactly when a segment is left and it equals the
/// literal byte for byte.
pub proof fn lemma_literal_result_ok(rem: Seq<Seq<u8>>, index: nat, lit: Seq<u8>)
    ensures
        literal_result(rem, index, lit) is Ok <==> (rem.len() > 0 && rem[0].len() == lit.len()
            && forall|i: int| 0 <= i < lit.len() ==> rem[0][i] == lit[i]),
{
    if rem.len() > 0 && rem[0].len() == lit.len() && forall|i: int|
        0 <= i < lit.len() ==> rem[0][i] == lit[i] {
        assert(rem[0] =~= lit);
    }
}

fn is_plain_byte_exec(b: u8) -> (r: bool)
    ensures
        r == is_plain_byte(b),
{
    (0x30 <= b && b <= 0x39) || (0x41 <= b && b <= 0x5a) || (0x61 <= b && b <= 0x7a) || b == 0x5f
}

fn hex_char_exec(n: u8) -> (c: u8)
    requires
        n < 16,
    ensures
        c == hex_char(n),
{
    if n < 10 {
        0x30 + n
    } else {
        0x61 + (n - 10)
    }
}

fn hex_value_exec(c: u8) -> (r: Option<u8>)
    ensures
        r == hex_value(c),
{
    if 0x30 <= c && c <= 0x39 {
        Some(c - 0x30)
    } else if 0x61 <= c && c <= 0x66 {
        Some(c - 0x61 + 10)
    } else {
        None
    }
}

/// Escapes a byte sequence for use as one segment of a key.
pub fn escape(bytes: &[u8]) -> (r: Vec<u8>)
    ensures
        r@ == escape_bytes(bytes@),
{
    let mut out: Vec<u8> = Vec::new();
    let mut i: usize = 0;
    while i < bytes.len()
        invariant
            i <= bytes@.len(),
            out@ == escape_bytes(bytes@.take(i as int)),
        decreases bytes@.len() - i,
    {
        let b = bytes[i];
        proof {
            lemma_escape_concat(bytes@.take(i as int), seq![b]);
            assert(bytes@.take(i + 1) =~= bytes@.take(i as int) + seq![b]);
            assert(seq![b].skip(1) =~= Seq::<u8>::empty());
            assert(escape_bytes(Seq::<u8>::empty()) == Seq::<u8>::empty());
            assert(escape_bytes(seq![b]) == escape_byte(b) + escape_bytes(seq![b].skip(1)));
            assert(escape_byte(b) + Seq::<u8>::empty() =~= escape_byte(b));
        }
        if is_plain_byte_exec(b) {
            out.push(b);
        } else {
            out.push(PERCENT);
            out.push(hex_char_exec(b / 16));
            out.push(hex_char_exec(b % 16));
        }
        proof {
            assert(out@ =~= escape_bytes(bytes@.take(i + 1)));
        }
        i = i + 1;
    }
    proof {
        assert(bytes@.take(i as int) =~= bytes@);
    }
    out
}

/// Recovers the bytes of an escaped segment; `None` where a `%` is not followed
/// by two lower-case hex digits.
pub fn unescape(bytes: &[u8]) -> (r: Option<Vec<u8>>)
    ensures
        r is Some <==> unescape_bytes(bytes@) is Some,
        r matches Some(v) ==> unescape_bytes(bytes@) == Some(v@),
{
    let mut out: Vec<u8> = Vec::new();
    let mut i: usize = 0;
    let n = bytes.len();
    proof {
        assert(bytes@.skip(0) =~= bytes@);
        match unescape_bytes(bytes@) {
            Some(r) => {
                assert(Seq::<u8>::empty() + r =~= r);
            },
            None => {},
        }
    }
    while i < n
        invariant
            n == bytes@.len(),
            i <= n,
            unescape_bytes(bytes@) == prepend_opt(out@, unescape_bytes(bytes@.skip(i as int))),
        decreases n - i,
    {
        let ghost rest = bytes@.skip(i as int);
        let c = bytes[i];
        if c == PERCENT {
            if n - i < 3 {
                return None;
            }
            let hi = hex_value_exec(bytes[i + 1]);
            let lo = hex_value_exec(bytes[i + 2]);
            match (hi, lo) {
                (Some(h), Some(l)) => {
                    let v: u8 = h * 16 + l;
                    proof {
                        assert(rest.skip(3) =~= bytes@.skip(i + 3));
                        assert(out@ + (seq![v] + unescape_bytes(rest.skip(3))->0) =~= (out@
                            + seq![v]) + unescape_bytes(rest.skip(3))->0);
                    }
                    out.push(v);
                    i = i + 3;
                },
                _ => {
                    return None;
                },
            }
        } else {
            proof {
                assert(rest.skip(1) =~= bytes@.skip(i + 1));
                assert(out@ + (seq![c] + unescape_bytes(rest.skip(1))->0) =~= (out@ + seq![c])
                    + unescape_bytes(rest.skip(1))->0);
            }
            out.push(c);
            i = i + 1;
        }
    }
    proof {
        assert(bytes@.skip(i as int) =~= Seq::<u8>::empty());
        assert(out@ + Seq::<u8>::empty() =~= out@);
    }
    Some(out)
}


/// Index of the first `/` in `s`, or the length of `s` where there is none.
pub open spec fn slash_index(s: Seq<u8>) -> int
    decreases s.len(),
{
    if s.len() == 0 {
        0
    } else if s[0] == SLASH {
        0
    } else {
        1 + slash_index(s.skip(1))
    }
}

/// The segments of `s` between its `/` bytes, as `str::split('/')` gives them:
/// there is always at least one, and each `/` starts a new one.
pub open spec fn split_segments(s: Seq<u8>) -> Seq<Seq<u8>>
    decreases s.len(),
{
    let j = slash_index(s);
    if 0 <= j < s.len() {
        seq![s.take(j)] + split_segments(s.skip(j + 1))
    } else {
        seq![s]
    }
}

proof fn lemma_slash_index_at(s: Seq<u8>, m: int)
    requires
        0 <= m <= s.len(),
        forall|i: int| 0 <= i < m ==> s[i] != SLASH,
        m == s.len() || s[m] == SLASH,
    ensures
        slash_index(s) == m,
    decreases m,
{
    if m > 0 {
        lemma_slash_index_at(s.skip(1), m - 1);
    }
}

/// A sequence without `/` is a single segment.
pub proof fn lemma_split_slash_free(a: Seq<u8>)
    requires
        slash_free(a),
    ensures
        split_segments(a) == seq![a],
{
    lemma_slash_index_at(a, a.len() as int);
}

/// A `/` after a segment without `/` separates that segment from the rest.
pub proof fn lemma_split_join(a: Seq<u8>, b: Seq<u8>)
    requires
        slash_free(a),
    ensures
        split_segments(a + seq![SLASH] + b) == seq![a] + split_segments(b),
{
    let s = a + seq![SLASH] + b;
    lemma_slash_index_at(s, a.len() as int);
    assert(s.take(a.len() as int) =~= a);
    assert(s.skip(a.len() as int + 1) =~= b);
}

/// An ASCII byte sequence is valid UTF-8.
pub proof fn lemma_ascii_valid_utf8(s: Seq<u8>)
    requires
        all_ascii(s),
    ensures
        valid_utf8(s),
{
    assert(s.subrange(0, 0) =~= Seq::<u8>::empty());
    assert(partial_valid_utf8(s, 0));
    partial_valid_utf8_extend_ascii_block(s, 0, s.len() as int);
    assert(s.subrange(0, s.len() as int) =~= s);
}

/// The UTF-8 encoding of an ASCII literal is its list of bytes.
pub proof fn lemma_encode_ascii_literal(chars: Seq<char>, bytes: Seq<u8>)
    requires
        chars.len() == bytes.len(),
        forall|i: int|
            0 <= i < chars.len() ==> '\0' <= #[trigger] chars[i] <= '\u{7f}' && chars[i] as u8 == bytes[i],
    ensures
        encode_utf8(chars) == bytes,
{
    assert forall|i: int| 0 <= i < chars.len() implies '\0' <= #[trigger] chars[i] <= '\u{7f}' by {}
    assert(is_ascii_chars(chars));
    is_ascii_chars_encode_utf8(chars);
    assert(encode_utf8(chars) =~= bytes);
}

/// Why a string key could not be read back into a structured key.
#[derive(Debug, Clone, Copy, PartialEq, Eq, Structural)]
pub enum KeyError {
    /// The segment at `index` is not the literal that the key expects there.
    InvalidSegment { index: usize },
    /// The segment at `index` must not be empty.
    EmptySegment { index: usize },
    /// The key has no segment at `index`, or has one there when it should end.
    WrongNumberOfSegments { index: usize },
    /// The segment at `index` has a `%` that two lower-case hex digits do not follow.
    InvalidEscape { index: usize },
    /// The segment at `index` does not unescape to UTF-8.
    InvalidUtf8 { index: usize },
}

/// What one segment reads as a string: unescaped, then decoded as UTF-8.
pub open spec fn segment_str(seg: Seq<u8>, index: nat) -> Result<Seq<char>, KeyError> {
    match unescape_bytes(seg) {
        None => Err(KeyError::InvalidEscape { index: index as usize }),
        Some(b) => if valid_utf8(b) {
            Ok(decode_utf8(b))
        } else {
            Err(KeyError::InvalidUtf8 { index: index as usize })
        },
    }
}

/// Reading a literal when `rem` are the segments left and `index` is the
/// index of the first of them.
pub open spec fn literal_result(rem: Seq<Seq<u8>>, index: nat, lit: Seq<u8>) -> Result<
    (),
    KeyError,
> {
    if rem.len() == 0 {
        Err(KeyError::WrongNumberOfSegments { index: index as usize })
    } else if rem[0] == lit {
        Ok(())
    } else {
        Err(KeyError::InvalidSegment { index: index as usize })
    }
}

/// Reading a string segment when `rem` are the segments left.
pub open spec fn str_result(rem: Seq<Seq<u8>>, index: nat) -> Result<Seq<char>, KeyError> {
    if rem.len() == 0 {
        Err(KeyError::WrongNumberOfSegments { index: index as usize })
    } else {
        segment_str(rem[0], index)
    }
}

/// Reading a string segment that must not be empty.
pub open spec fn nonempty_result(rem: Seq<Seq<u8>>, index: nat) -> Result<Seq<char>, KeyError> {
    match str_result(rem, index) {
        Ok(s) => if s.len() == 0 {
            Err(KeyError::EmptySegment { index: index as usize })
        } else {
            Ok(s)
        },
        Err(e) => Err(e),
    }
}

/// Checking that no segment is left.
pub open spec fn done_result(rem: Seq<Seq<u8>>, index: nat) -> Result<(), KeyError> {
    if rem.len() == 0 {
        Ok(())
    } else {
        Err(KeyError::WrongNumberOfSegments { index: index as usize })
    }
}

/// `i + 1`, held at `usize::MAX`.
pub open spec fn next_index(i: usize) -> usize {
    if i < usize::MAX {
        (i + 1) as usize
    } else {
        i
    }
}

/// Calls `String::from_utf8` and keeps the string it gives on success.
///
/// The contract says what the documentation of `String::from_utf8` says: it
/// succeeds exactly on valid UTF-8, and the string then holds the characters
/// that the bytes encode.
#[verifier::external_body]
fn string_from_utf8(bytes: Vec<u8>) -> (r: Option<String>)
    ensures
        r is Some <==> valid_utf8(bytes@),
        r matches Some(s) ==> s@ == decode_utf8(bytes@),
{
    match String::from_utf8(bytes) {
        Ok(s) => Some(s),
        Err(_) => None,
    }
}

/// Appends the bytes of `src` to `dst`.
pub fn append_bytes(dst: &mut Vec<u8>, src: &[u8])
    ensures
        final(dst)@ == old(dst)@ + src@,
{
    let mut i: usize = 0;
    while i < src.len()
        invariant
            i <= src@.len(),
            dst@ == old(dst)@ + src@.take(i as int),
        decreases src@.len() - i,
    {
        proof {
            assert(src@.take(i + 1) =~= src@.take(i as int).push(src@[i as int]));
        }
        dst.push(src[i]);
        i = i + 1;
    }
    proof {
        assert(src@.take(i as int) =~= src@);
    }
}

/// `seg` as the next segment after `prev`: joined with `/` unless `prev` is empty.
pub open spec fn joined(prev: Seq<u8>, seg: Seq<u8>) -> Seq<u8> {
    if prev.len() == 0 {
        seg
    } else {
        prev + seq![SLASH] + seg
    }
}

/// Builds a string key segment by segment.
pub struct KeyBuilder {
    buf: Vec<u8>,
}

impl View for KeyBuilder {
    type V = Seq<u8>;

    closed spec fn view(&self) -> Seq<u8> {
        self.buf@
    }
}

impl KeyBuilder {
    #[verifier::type_invariant]
    closed spec fn inv(self) -> bool {
        valid_utf8(self.buf@)
    }

    /// An empty builder.
    pub fn new() -> (b: KeyBuilder)
        ensures
            b@ == Seq::<u8>::empty(),
    {
        let buf: Vec<u8> = Vec::new();
        proof {
            lemma_ascii_valid_utf8(buf@);
        }
        KeyBuilder { buf }
    }

    /// A builder that starts with `prefix`, as it stands.
    pub fn new_prefixed(prefix: &str) -> (b: KeyBuilder)
        ensures
            b@ == encode_utf8(prefix@),
    {
        KeyBuilder::new().push_raw(prefix)
    }

    /// Appends `s` as it stands, after a `/` unless nothing was pushed yet.
    pub fn push_raw(self, s: &str) -> (b: KeyBuilder)
        ensures
            b@ == joined(self@, encode_utf8(s@)),
    {
        proof {
            use_type_invariant(&self);
            encode_utf8_valid_utf8(s@);
        }
        let bytes = s.as_bytes();
        self.push_segment(bytes)
    }

    /// Appends `s` escaped, after a `/` unless nothing was pushed yet.
    pub fn push_str(self, s: &str) -> (b: KeyBuilder)
        ensures
            b@ == joined(self@, escape_bytes(encode_utf8(s@))),
    {
        proof {
            use_type_invariant(&self);
        }
        let escaped = escape(s.as_bytes());
        proof {
            lemma_escape_slash_free_ascii(encode_utf8(s@));
            lemma_ascii_valid_utf8(escaped@);
        }
        self.push_segment(escaped.as_slice())
    }

    fn push_segment(self, seg: &[u8]) -> (b: KeyBuilder)
        requires
            valid_utf8(seg@),
        ensures
            b@ == joined(self@, seg@),
    {
        proof {
            use_type_invariant(&self);
        }
        let KeyBuilder { mut buf } = self;
        let ghost prev = buf@;
        if buf.len() > 0 {
            buf.push(SLASH);
            proof {
                lemma_ascii_valid_utf8(seq![SLASH]);
                valid_utf8_concat(prev, seq![SLASH]);
                assert(buf@ =~= prev + seq![SLASH]);
            }
        }
        let ghost mid = buf@;
        append_bytes(&mut buf, seg);
        proof {
            valid_utf8_concat(mid, seg@);
        }
        KeyBuilder { buf }
    }

    /// The key built so far.
    pub fn done(self) -> (s: String)
        ensures
            encode_utf8(s@) == self@,
            s@ == decode_utf8(self@),
    {
        proof {
            use_type_invariant(&self);
        }
        let KeyBuilder { buf } = self;
        let ghost bytes = buf@;
        let r = string_from_utf8(buf);
        match r {
            Some(s) => {
                proof {
                    decode_utf8_encode_utf8(bytes);
                }
                s
            },
            None => {
                proof {
                    assert(false);
                }
                String::new()
            },
        }
    }
}

/// Reads a string key segment by segment.
pub struct KeyParser<'s> {
    bytes: &'s [u8],
    pos: usize,
    finished: bool,
    index: usize,
}

impl<'s> KeyParser<'s> {
    #[verifier::type_invariant]
    closed spec fn inv(self) -> bool {
        self.pos <= self.bytes@.len()
    }

    /// The segments not yet read.
    pub closed spec fn remaining(self) -> Seq<Seq<u8>> {
        if self.finished {
            Seq::empty()
        } else {
            split_segments(self.bytes@.skip(self.pos as int))
        }
    }

    /// The index of the next segment, which errors report.
    pub closed spec fn consumed(self) -> usize {
        self.index
    }

    /// A parser at the first segment of `source`.
    pub fn new(source: &'s str) -> (p: KeyParser<'s>)
        ensures
            p.remaining() == split_segments(encode_utf8(source@)),
            p.consumed() == 0,
    {
        let bytes = source.as_bytes();
        proof {
            assert(bytes@.skip(0) =~= bytes@);
        }
        KeyParser { bytes, pos: 0, finished: false, index: 0 }
    }

    /// A parser past the first segment of `source`, which must be `prefix`.
    pub fn new_prefixed(source: &'s str, prefix: &str) -> (r: Result<KeyParser<'s>, KeyError>)
        ensures
            literal_result(split_segments(encode_utf8(source@)), 0, encode_utf8(prefix@)) is Ok
                <==> r is Ok,
            r matches Err(e) ==> literal_result(
                split_segments(encode_utf8(source@)),
                0,
                encode_utf8(prefix@),
            ) == Err::<(), KeyError>(e),
            r matches Ok(p) ==> p.remaining() == split_segments(encode_utf8(source@)).drop_first()
                && p.consumed() == 1,
    {
        let mut p = KeyParser::new(source);
        match p.next_literal(prefix) {
            Ok(()) => Ok(p),
            Err(e) => Err(e),
        }
    }

    /// The next segment as it stands.
    pub fn next_raw(&mut self) -> (r: Result<Vec<u8>, KeyError>)
        ensures
            old(self).remaining().len() == 0 ==> r == Err::<Vec<u8>, KeyError>(
                KeyError::WrongNumberOfSegments { index: old(self).consumed() },
            ),
            old(self).remaining().len() > 0 ==> r is Ok,
            r matches Ok(seg) ==> seg@ == old(self).remaining()[0] && final(self).remaining()
                == old(self).remaining().drop_first() && final(self).consumed() == next_index(
                old(self).consumed(),
            ),
    {
        proof {
            use_type_invariant(&*self);
        }
        if self.finished {
            return Err(KeyError::WrongNumberOfSegments { index: self.index });
        }
        let bytes = self.bytes;
        let pos = self.pos;
        let n = bytes.len();
        let mut k = pos;
        while k < n && bytes[k] != SLASH
            invariant
                n == bytes@.len(),
                pos <= k <= n,
                forall|i: int| pos <= i < k ==> bytes@[i] != SLASH,
            decreases n - k,
        {
            k = k + 1;
        }
        let mut seg: Vec<u8> = Vec::new();
        let mut j = pos;
        while j < k
            invariant
                n == bytes@.len(),
                pos <= j <= k <= n,
                seg@ == bytes@.subrange(pos as int, j as int),
            decreases k - j,
        {
            proof {
                assert(bytes@.subrange(pos as int, j + 1) =~= bytes@.subrange(pos as int, j as int).push(
                    bytes@[j as int],
                ));
            }
            seg.push(bytes[j]);
            j = j + 1;
        }
        let ghost s = bytes@.skip(pos as int);
        proof {
            lemma_slash_index_at(s, k - pos);
            assert(s.take(k - pos) =~= bytes@.subrange(pos as int, k as int));
        }
        let index = if self.index < usize::MAX {
            self.index + 1
        } else {
            self.index
        };
        if k < n {
            proof {
                assert(s.skip(k - pos + 1) =~= bytes@.skip(k + 1));
            }
            *self = KeyParser { bytes, pos: k + 1, finished: false, index };
        } else {
            proof {
                assert(s =~= bytes@.subrange(pos as int, k as int));
                assert(split_segments(s) == seq![s]);
            }
            *self = KeyParser { bytes, pos: n, finished: true, index };
        }
        Ok(seg)
    }

    /// The next segment, which must be `expect`.
    pub fn next_literal(&mut self, expect: &str) -> (r: Result<(), KeyError>)
        ensures
            r == literal_result(old(self).remaining(), old(self).consumed() as nat, encode_utf8(expect@)),
            r is Ok ==> final(self).remaining() == old(self).remaining().drop_first()
                && final(self).consumed() == next_index(old(self).consumed()),
    {
        let index = self.index;
        let seg = self.next_raw()?;
        let want = expect.as_bytes();
        if seg.len() != want.len() {
            return Err(KeyError::InvalidSegment { index });
        }
        let mut i: usize = 0;
        while i < seg.len()
            invariant
                seg@.len() == want@.len(),
                want@ == encode_utf8(expect@),
                index == old(self).consumed(),
                old(self).remaining().len() > 0,
                seg@ == old(self).remaining()[0],
                i <= seg@.len(),
                forall|j: int| 0 <= j < i ==> seg@[j] == want@[j],
            decreases seg@.len() - i,
        {
            if seg[i] != want[i] {
                proof {
                    assert(seg@[i as int] != want@[i as int]);
                    assert(seg@ != want@);
                }
                return Err(KeyError::InvalidSegment { index });
            }
            i = i + 1;
        }
        proof {
            assert(seg@ =~= want@);
        }
        Ok(())
    }

    /// The next segment, unescaped, as a string.
    pub fn next_str(&mut self) -> (r: Result<String, KeyError>)
        ensures
            r matches Ok(s) ==> str_result(old(self).remaining(), old(self).consumed() as nat)
                == Ok::<Seq<char>, KeyError>(s@),
            r matches Err(e) ==> str_result(old(self).remaining(), old(self).consumed() as nat)
                == Err::<Seq<char>, KeyError>(e),
            r is Ok ==> final(self).remaining() == old(self).remaining().drop_first()
                && final(self).consumed() == next_index(old(self).consumed()),
    {
        let index = self.index;
        let seg = self.next_raw()?;
        match unescape(seg.as_slice()) {
            None => Err(KeyError::InvalidEscape { index }),
            Some(b) => match string_from_utf8(b) {
                None => Err(KeyError::InvalidUtf8 { index }),
                Some(s) => Ok(s),
            },
        }
    }

    /// The next segment, unescaped, as a string that must not be empty.
    pub fn next_nonempty(&mut self) -> (r: Result<String, KeyError>)
        ensures
            r matches Ok(s) ==> nonempty_result(old(self).remaining(), old(self).consumed() as nat)
                == Ok::<Seq<char>, KeyError>(s@),
            r matches Err(e) ==> nonempty_result(old(self).remaining(), old(self).consumed() as nat)
                == Err::<Seq<char>, KeyError>(e),
            r is Ok ==> final(self).remaining() == old(self).remaining().drop_first()
                && final(self).consumed() == next_index(old(self).consumed()),
    {
        let index = self.index;
        let s = self.next_str()?;
        if s.as_str().is_empty() {
            Err(KeyError::EmptySegment { index })
        } else {
            Ok(s)
        }
    }

    /// Checks that every segment was read.
    pub fn done(&self) -> (r: Result<(), KeyError>)
        ensures
            r == done_result(self.remaining(), self.consumed() as nat),
    {
        if self.finished {
            Ok(())
        } else {
            Err(KeyError::WrongNumberOfSegments { index: self.index })
        }
    }
}

} // verus!
