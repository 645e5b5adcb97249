//! Canonical flat JSON records: the wire format shared by the helper-process
//! result documents and the streamed progress lines.
//!
//! A record is one JSON object whose members map string keys to scalar
//! values (string, unsigned integer, boolean or null). `record_bytes`
//! gives the canonical byte form of a record model — compact, with the
//! standard short escapes and `\u00` escapes for control bytes — and
//! `sp_record` is the grammar, written as a recursive descent over a byte
//! sequence: it also reads insignificant whitespace between tokens, either
//! letter case of hexadecimal escapes, and the escaped solidus. Strings
//! are byte sequences; a `\u` escape above `007F` names a code point, not
//! a byte, and stays outside the grammar, as do nested objects and arrays:
//! a document using either is not a record of this wire format. The
//! executable parser and serializer are proved against these definitions,
//! and the parse/serialize round trip is a theorem.

use vstd::prelude::*;

verus! {

/// Opening double quote of a JSON string.
pub const QUOTE: u8 = 0x22;
/// Backslash, the escape character JSON strings may not contain here.
pub const BACKSLASH: u8 = 0x5c;
/// `{`
pub const LBRACE: u8 = 0x7b;
/// `}`
pub const RBRACE: u8 = 0x7d;
/// `:`
pub const COLON: u8 = 0x3a;
/// `,`
pub const COMMA: u8 = 0x2c;
/// `0`
pub const DIGIT_ZERO: u8 = 0x30;

/// A byte that may stand unescaped inside a string: printable or high, and
/// neither the closing quote nor the escape character.
pub open spec fn is_plain_byte(b: u8) -> bool {
    0x20 <= b && b != QUOTE && b != BACKSLASH
}

/// Insignificant whitespace between tokens: space, tab, line feed,
/// carriage return.
pub open spec fn is_ws_byte(b: u8) -> bool {
    b == 0x20 || b == 0x09 || b == 0x0a || b == 0x0d
}

/// End of the whitespace run that starts at `i`.
pub open spec fn ws_end(s: Seq<u8>, i: int) -> int
    decreases s.len() - i,
{
    if 0 <= i < s.len() && is_ws_byte(s[i]) {
        ws_end(s, i + 1)
    } else {
        i
    }
}

/// The single-character escapes the grammar reads: quote, backslash,
/// solidus, backspace, form feed, line feed, carriage return, tab.
pub open spec fn is_single_escape(c: u8) -> bool {
    c == 0x22 || c == 0x5c || c == 0x2f || c == 0x62 || c == 0x66 || c == 0x6e || c == 0x72
        || c == 0x74
}

/// The byte a single-character escape stands for.
pub open spec fn unescape_char(c: u8) -> u8 {
    if c == 0x62 {
        0x08u8
    } else if c == 0x66 {
        0x0cu8
    } else if c == 0x6e {
        0x0au8
    } else if c == 0x72 {
        0x0du8
    } else if c == 0x74 {
        0x09u8
    } else {
        c
    }
}

/// A byte the canonical form writes behind a single backslash, and the
/// character it writes there.
pub open spec fn has_short_escape(b: u8) -> bool {
    b == QUOTE || b == BACKSLASH || b == 0x08 || b == 0x0c || b == 0x0a || b == 0x0d || b == 0x09
}

/// The escape character the canonical form writes for such a byte.
pub open spec fn escape_code(b: u8) -> u8 {
    if b == 0x08 {
        0x62u8
    } else if b == 0x0c {
        0x66u8
    } else if b == 0x0a {
        0x6eu8
    } else if b == 0x0d {
        0x72u8
    } else if b == 0x09 {
        0x74u8
    } else {
        b
    }
}

/// A hexadecimal digit byte, either case.
pub open spec fn is_hex_byte(c: u8) -> bool {
    (0x30 <= c <= 0x39) || (0x61 <= c <= 0x66) || (0x41 <= c <= 0x46)
}

/// The value of a hexadecimal digit byte.
pub open spec fn hex_val(c: u8) -> int {
    if 0x30 <= c <= 0x39 {
        c - 0x30
    } else if 0x61 <= c <= 0x66 {
        c - 0x61 + 10
    } else {
        c - 0x41 + 10
    }
}

/// The lower-case hexadecimal digit of a value below sixteen.
pub open spec fn hex_digit(x: int) -> u8 {
    if x < 10 {
        (0x30 + x) as u8
    } else {
        (0x61 + x - 10) as u8
    }
}

/// An ASCII decimal digit.
pub open spec fn is_digit_byte(b: u8) -> bool {
    DIGIT_ZERO <= b <= 0x39
}

/// Mathematical model of one member value.
pub ghost enum FieldValue {
    Null,
    Truth(bool),
    Num(nat),
    Txt(Seq<u8>),
}

/// Mathematical model of one record member: a key and its value.
pub ghost struct FieldModel {
    pub key: Seq<u8>,
    pub value: FieldValue,
}

/// A value the wire format can carry: numbers fit a machine word; strings
/// carry any bytes, escaped as needed.
pub open spec fn value_wf(v: FieldValue) -> bool {
    match v {
        FieldValue::Null => true,
        FieldValue::Truth(_) => true,
        FieldValue::Num(n) => n <= u64::MAX,
        FieldValue::Txt(_) => true,
    }
}

/// A member whose key and value the wire format can carry.
pub open spec fn field_wf(f: FieldModel) -> bool {
    value_wf(f.value)
}

/// Every member of the record is well formed.
pub open spec fn model_wf(m: Seq<FieldModel>) -> bool {
    forall|i: int| 0 <= i < m.len() ==> field_wf(#[trigger] m[i])
}

// ------------------------------------------------------------------
// Canonical serialization
// ------------------------------------------------------------------

/// Decimal digits of `n`, most significant first, no leading zero.
pub open spec fn dec_rep(n: nat) -> Seq<u8>
    decreases n,
{
    if n < 10 {
        seq![(DIGIT_ZERO + n) as u8]
    } else {
        dec_rep(n / 10) + seq![(DIGIT_ZERO + n % 10) as u8]
    }
}

/// The bytes `"true"`.
pub open spec fn lit_true() -> Seq<u8> {
    seq![0x74u8, 0x72u8, 0x75u8, 0x65u8]
}

/// The bytes `"false"`.
pub open spec fn lit_false() -> Seq<u8> {
    seq![0x66u8, 0x61u8, 0x6cu8, 0x73u8, 0x65u8]
}

/// The bytes `"null"`.
pub open spec fn lit_null() -> Seq<u8> {
    seq![0x6eu8, 0x75u8, 0x6cu8, 0x6cu8]
}

/// One byte on the wire: itself where printable; behind a backslash where
/// it has a short escape; as `\u00` and two hexadecimal digits for the
/// remaining control bytes.
pub open spec fn esc_byte(b: u8) -> Seq<u8> {
    if has_short_escape(b) {
        seq![BACKSLASH, escape_code(b)]
    } else if b < 0x20 {
        seq![BACKSLASH, 0x75u8, 0x30u8, 0x30u8, hex_digit(b as int / 16), hex_digit(b as int % 16)]
    } else {
        seq![b]
    }
}

/// A string's text on the wire, escaped byte by byte.
pub open spec fn esc(t: Seq<u8>) -> Seq<u8>
    decreases t.len(),
{
    if t.len() == 0 {
        Seq::empty()
    } else {
        esc_byte(t[0]) + esc(t.skip(1))
    }
}

/// A quoted string: `"` escaped text `"`.
pub open spec fn str_bytes(t: Seq<u8>) -> Seq<u8> {
    seq![QUOTE] + esc(t) + seq![QUOTE]
}

/// Canonical bytes of one value.
pub open spec fn value_bytes(v: FieldValue) -> Seq<u8> {
    match v {
        FieldValue::Null => lit_null(),
        FieldValue::Truth(b) => if b {
            lit_true()
        } else {
            lit_false()
        },
        FieldValue::Num(n) => dec_rep(n),
        FieldValue::Txt(t) => str_bytes(t),
    }
}

/// Canonical bytes of one member: `"key":value`.
pub open spec fn field_bytes(f: FieldModel) -> Seq<u8> {
    str_bytes(f.key) + seq![COLON] + value_bytes(f.value)
}

/// Canonical bytes of a member list, comma separated.
pub open spec fn fields_bytes(m: Seq<FieldModel>) -> Seq<u8>
    decreases m.len(),
{
    if m.len() == 0 {
        Seq::empty()
    } else if m.len() == 1 {
        field_bytes(m[0])
    } else {
        field_bytes(m[0]) + seq![COMMA] + fields_bytes(m.skip(1))
    }
}

/// Canonical bytes of a whole record: `{` members `}`.
pub open spec fn record_bytes(m: Seq<FieldModel>) -> Seq<u8> {
    seq![LBRACE] + fields_bytes(m) + seq![RBRACE]
}

// ------------------------------------------------------------------
// The grammar, as a recursive descent over a byte sequence
// ------------------------------------------------------------------

/// The value of four hexadecimal digit bytes, most significant first.
pub open spec fn hex4_val(s: Seq<u8>, i: int) -> int {
    hex_val(s[i]) * 4096 + hex_val(s[i + 1]) * 256 + hex_val(s[i + 2]) * 16 + hex_val(s[i + 3])
}

/// Whether four hexadecimal digit bytes stand at `i`.
pub open spec fn hex4_at(s: Seq<u8>, i: int) -> bool {
    i + 4 <= s.len() && is_hex_byte(s[i]) && is_hex_byte(s[i + 1]) && is_hex_byte(s[i + 2])
        && is_hex_byte(s[i + 3])
}

/// String body from position `i`: plain bytes, single-character escapes,
/// and `\u` escapes of single-byte code points, up to the closing quote.
/// Yields the unescaped text and the position after the quote. A `\u`
/// escape above `007F` stands for a code point, not a byte, and is outside
/// this byte-level grammar.
pub open spec fn sp_strbody(s: Seq<u8>, i: int) -> Option<(Seq<u8>, int)>
    decreases s.len() - i,
{
    if i < 0 || i >= s.len() {
        None
    } else if s[i] == QUOTE {
        Some((Seq::empty(), i + 1))
    } else if s[i] == BACKSLASH {
        if i + 1 < s.len() && is_single_escape(s[i + 1]) {
            match sp_strbody(s, i + 2) {
                Some((t, j)) => Some((seq![unescape_char(s[i + 1])] + t, j)),
                None => None,
            }
        } else if i + 1 < s.len() && s[i + 1] == 0x75 && hex4_at(s, i + 2) && hex4_val(s, i + 2)
            < 0x80 {
            match sp_strbody(s, i + 6) {
                Some((t, j)) => Some((seq![hex4_val(s, i + 2) as u8] + t, j)),
                None => None,
            }
        } else {
            None
        }
    } else if is_plain_byte(s[i]) {
        match sp_strbody(s, i + 1) {
            Some((t, j)) => Some((seq![s[i]] + t, j)),
            None => None,
        }
    } else {
        None
    }
}

/// A quoted string starting at `i`.
pub open spec fn sp_string(s: Seq<u8>, i: int) -> Option<(Seq<u8>, int)> {
    if 0 <= i < s.len() && s[i] == QUOTE {
        sp_strbody(s, i + 1)
    } else {
        None
    }
}

/// End of the digit run that starts at `i`.
pub open spec fn digits_end(s: Seq<u8>, i: int) -> int
    decreases s.len() - i,
{
    if 0 <= i < s.len() && is_digit_byte(s[i]) {
        digits_end(s, i + 1)
    } else {
        i
    }
}

/// Numeric value of the digit bytes `s[i..j]`, most significant first.
pub open spec fn dec_val(s: Seq<u8>, i: int, j: int) -> int
    decreases j - i,
{
    if i < j {
        dec_val(s, i, j - 1) * 10 + (s[j - 1] - DIGIT_ZERO)
    } else {
        0
    }
}

/// A canonical unsigned number starting at `i`: the maximal digit run, no
/// leading zero, value within a machine word.
pub open spec fn sp_number(s: Seq<u8>, i: int) -> Option<(FieldValue, int)> {
    if 0 <= i < s.len() && is_digit_byte(s[i]) {
        let j = digits_end(s, i);
        if s[i] == DIGIT_ZERO && j != i + 1 {
            None
        } else if dec_val(s, i, j) <= u64::MAX {
            Some((FieldValue::Num(dec_val(s, i, j) as nat), j))
        } else {
            None
        }
    } else {
        None
    }
}

/// The bytes `w` stand in `s` at position `i`.
pub open spec fn matches_at(s: Seq<u8>, i: int, w: Seq<u8>) -> bool {
    0 <= i && i + w.len() <= s.len() && s.subrange(i, i + w.len()) == w
}

/// One scalar value starting at `i`.
pub open spec fn sp_value(s: Seq<u8>, i: int) -> Option<(FieldValue, int)> {
    if 0 <= i < s.len() {
        if s[i] == QUOTE {
            match sp_string(s, i) {
                Some((t, j)) => Some((FieldValue::Txt(t), j)),
                None => None,
            }
        } else if is_digit_byte(s[i]) {
            sp_number(s, i)
        } else if matches_at(s, i, lit_true()) {
            Some((FieldValue::Truth(true), i + 4))
        } else if matches_at(s, i, lit_false()) {
            Some((FieldValue::Truth(false), i + 5))
        } else if matches_at(s, i, lit_null()) {
            Some((FieldValue::Null, i + 4))
        } else {
            None
        }
    } else {
        None
    }
}

/// One member, `"key" : value`, starting at `i`, with insignificant
/// whitespace allowed around its tokens.
pub open spec fn sp_member(s: Seq<u8>, i: int) -> Option<(FieldModel, int)> {
    let i0 = ws_end(s, i);
    match sp_string(s, i0) {
        Some((k, j)) => {
            let jc = ws_end(s, j);
            if jc < s.len() && s[jc] == COLON {
                match sp_value(s, ws_end(s, jc + 1)) {
                    Some((v, l)) => Some((FieldModel { key: k, value: v }, l)),
                    None => None,
                }
            } else {
                None
            }
        },
        None => None,
    }
}

/// A comma-separated member list starting at `i`. The bound check on the
/// recursion position only justifies termination; parsing a member always
/// advances.
pub open spec fn sp_members(s: Seq<u8>, i: int) -> Option<(Seq<FieldModel>, int)>
    decreases s.len() - i,
{
    match sp_member(s, i) {
        Some((f, j)) => {
            let jc = ws_end(s, j);
            if jc < s.len() && s[jc] == COMMA {
                if i < jc + 1 {
                    match sp_members(s, jc + 1) {
                        Some((ms, l)) => Some((seq![f] + ms, l)),
                        None => None,
                    }
                } else {
                    None
                }
            } else {
                Some((seq![f], j))
            }
        },
        None => None,
    }
}

/// A whole record: `{` members `}` with insignificant whitespace between
/// tokens, spanning all of `s`.
pub open spec fn sp_record(s: Seq<u8>) -> Option<Seq<FieldModel>> {
    if s.len() >= 2 && s[0] == LBRACE {
        let a = ws_end(s, 1);
        if a < s.len() && s[a] == RBRACE && a + 1 == s.len() {
            Some(Seq::empty())
        } else {
            match sp_members(s, 1) {
                Some((ms, j)) => {
                    let e = ws_end(s, j);
                    if e < s.len() && s[e] == RBRACE && e + 1 == s.len() {
                        Some(ms)
                    } else {
                        None
                    }
                },
                None => None,
            }
        }
    } else {
        None
    }
}

// ------------------------------------------------------------------
// Scan lemmas: how the grammar reads runs of bytes
// ------------------------------------------------------------------

/// The escaped form of a text, closed by a quote, parses back to the text.
proof fn lemma_strbody_complete(s: Seq<u8>, i: int, t: Seq<u8>)
    requires
        0 <= i,
        i + esc(t).len() + 1 <= s.len(),
        s.subrange(i, i + esc(t).len() as int) == esc(t),
        s[i + esc(t).len()] == QUOTE,
    ensures
        sp_strbody(s, i) == Some((t, i + esc(t).len() + 1)),
    decreases t.len(),
{
    assert(forall|m: int| 0 <= m < esc(t).len() ==> s[i + m] == #[trigger] esc(t)[m]) by {
        assert(forall|m: int| 0 <= m < esc(t).len() ==> s.subrange(
            i,
            i + esc(t).len() as int,
        )[m] == #[trigger] esc(t)[m]);
    }
    if t.len() == 0 {
        assert(esc(t) =~= Seq::<u8>::empty());
    } else {
        let b = t[0];
        let rest = t.skip(1);
        assert(esc(t) == esc_byte(b) + esc(rest));
        assert(forall|m: int| 0 <= m < esc(rest).len() ==> esc(t)[esc_byte(b).len() + m]
            == #[trigger] esc(rest)[m]);
        if has_short_escape(b) {
            assert(esc_byte(b) == seq![BACKSLASH, escape_code(b)]);
            assert(esc(t).len() == 2 + esc(rest).len());
            assert(esc(t)[0] == BACKSLASH);
            assert(esc(t)[1] == escape_code(b));
            assert(s[i] == esc(t)[0]);
            assert(s[i + 1] == esc(t)[1]);
            assert(is_single_escape(escape_code(b)));
            assert(unescape_char(escape_code(b)) == b);
            assert(s.subrange(i + 2, i + 2 + esc(rest).len() as int) =~= esc(rest)) by {
                assert(forall|m: int| 0 <= m < esc(rest).len() ==> s[i + 2 + m] == #[trigger] esc(
                    rest,
                )[m]);
            }
            lemma_strbody_complete(s, i + 2, rest);
            assert(seq![b] + rest =~= t);
        } else if b < 0x20 {
            let hi = hex_digit(b as int / 16);
            let lo = hex_digit(b as int % 16);
            assert(esc_byte(b) == seq![BACKSLASH, 0x75u8, 0x30u8, 0x30u8, hi, lo]);
            assert(esc(t).len() == 6 + esc(rest).len());
            assert(s[i] == esc(t)[0] && esc(t)[0] == BACKSLASH);
            assert(s[i + 1] == esc(t)[1] && esc(t)[1] == 0x75);
            assert(s[i + 2] == esc(t)[2] && esc(t)[2] == 0x30);
            assert(s[i + 3] == esc(t)[3] && esc(t)[3] == 0x30);
            assert(s[i + 4] == esc(t)[4] && esc(t)[4] == hi);
            assert(s[i + 5] == esc(t)[5] && esc(t)[5] == lo);
            assert(!is_single_escape(s[i + 1]));
            assert(b / 16 < 2 && b % 16 < 16);
            assert(is_hex_byte(0x30) && hex_val(0x30) == 0);
            assert(is_hex_byte(hi) && hex_val(hi) == b / 16);
            assert(is_hex_byte(lo) && hex_val(lo) == b % 16);
            assert(hex4_at(s, i + 2));
            assert(hex4_val(s, i + 2) == b) by {
                vstd::arithmetic::div_mod::lemma_fundamental_div_mod(b as int, 16);
            }
            assert(s.subrange(i + 6, i + 6 + esc(rest).len() as int) =~= esc(rest)) by {
                assert(forall|m: int| 0 <= m < esc(rest).len() ==> s[i + 6 + m] == #[trigger] esc(
                    rest,
                )[m]);
            }
            lemma_strbody_complete(s, i + 6, rest);
            assert(seq![b] + rest =~= t);
        } else {
            assert(esc_byte(b) == seq![b]);
            assert(esc(t).len() == 1 + esc(rest).len());
            assert(esc(t)[0] == b);
            assert(s[i] == esc(t)[0]);
            assert(is_plain_byte(b));
            assert(s.subrange(i + 1, i + 1 + esc(rest).len() as int) =~= esc(rest)) by {
                assert(forall|m: int| 0 <= m < esc(rest).len() ==> s[i + 1 + m] == #[trigger] esc(
                    rest,
                )[m]);
            }
            lemma_strbody_complete(s, i + 1, rest);
            assert(seq![b] + rest =~= t);
        }
    }
}

/// Escaping distributes over appending one byte.
proof fn lemma_esc_snoc(t: Seq<u8>, b: u8)
    ensures
        esc(t.push(b)) == esc(t) + esc_byte(b),
    decreases t.len(),
{
    if t.len() == 0 {
        assert(t.push(b)[0] == b);
        assert(t.push(b).skip(1) =~= Seq::<u8>::empty());
        assert(esc(t.push(b)) == esc_byte(b) + esc(t.push(b).skip(1)));
        assert(esc(Seq::<u8>::empty()) =~= Seq::<u8>::empty());
        assert(esc(t) =~= Seq::<u8>::empty());
        assert(esc(t.push(b)) =~= esc(t) + esc_byte(b));
    } else {
        assert(t.push(b)[0] == t[0]);
        assert(t.push(b).skip(1) =~= t.skip(1).push(b));
        lemma_esc_snoc(t.skip(1), b);
        assert(esc(t.push(b)) == esc_byte(t[0]) + esc(t.skip(1).push(b)));
        assert(esc(t) == esc_byte(t[0]) + esc(t.skip(1)));
        assert(esc(t.push(b)) =~= esc(t) + esc_byte(b));
    }
}

/// A maximal digit run ends where the digits end.
proof fn lemma_digits_end_scan(s: Seq<u8>, i: int, k: int)
    requires
        0 <= i <= k <= s.len(),
        k == s.len() || !is_digit_byte(s[k]),
        forall|m: int| i <= m < k ==> is_digit_byte(#[trigger] s[m]),
    ensures
        digits_end(s, i) == k,
    decreases k - i,
{
    if i < k {
        lemma_digits_end_scan(s, i + 1, k);
    }
}

// ------------------------------------------------------------------
// Decimal lemmas: digits and values determine each other
// ------------------------------------------------------------------

/// The value of a digit run is never negative.
proof fn lemma_dec_val_nonneg(s: Seq<u8>, i: int, j: int)
    requires
        forall|m: int| i <= m < j ==> is_digit_byte(#[trigger] s[m]),
    ensures
        dec_val(s, i, j) >= 0,
    decreases j - i,
{
    if i < j {
        lemma_dec_val_nonneg(s, i, j - 1);
    }
}

/// Extending a digit run can only grow its value.
proof fn lemma_dec_val_mono(s: Seq<u8>, i: int, j: int, k: int)
    requires
        i <= j <= k,
        forall|m: int| i <= m < k ==> is_digit_byte(#[trigger] s[m]),
    ensures
        dec_val(s, i, j) <= dec_val(s, i, k),
    decreases k - j,
{
    if j < k {
        lemma_dec_val_mono(s, i, j, k - 1);
        lemma_dec_val_nonneg(s, i, k - 1);
    }
}

/// The value of a digit run reads only the bytes of the run.
proof fn lemma_dec_val_congr(s1: Seq<u8>, s2: Seq<u8>, i: int, j: int)
    requires
        forall|m: int| i <= m < j ==> s1[m] == s2[m],
    ensures
        dec_val(s1, i, j) == dec_val(s2, i, j),
    decreases j - i,
{
    if i < j {
        lemma_dec_val_congr(s1, s2, i, j - 1);
    }
}

/// The value of a digit run equals the value of the run taken by itself.
proof fn lemma_dec_val_shift(s: Seq<u8>, i: int, j: int)
    requires
        0 <= i <= j <= s.len(),
    ensures
        dec_val(s, i, j) == dec_val(s.subrange(i, j), 0, j - i),
    decreases j - i,
{
    if i < j {
        lemma_dec_val_shift(s, i, j - 1);
        let d = s.subrange(i, j);
        assert(forall|m: int| 0 <= m < j - 1 - i ==> s.subrange(i, j - 1)[m] == d[m]);
        lemma_dec_val_congr(s.subrange(i, j - 1), d, 0, j - 1 - i);
        assert(d[j - i - 1] == s[j - 1]);
    }
}

/// The decimal digits of a number: all digits, and no leading zero unless
/// the number is a single digit.
proof fn lemma_dec_rep_digits(n: nat)
    ensures
        dec_rep(n).len() >= 1,
        forall|m: int| 0 <= m < dec_rep(n).len() ==> is_digit_byte(#[trigger] dec_rep(n)[m]),
        n >= 1 ==> dec_rep(n)[0] != DIGIT_ZERO,
        dec_rep(n).len() > 1 ==> dec_rep(n)[0] != DIGIT_ZERO,
    decreases n,
{
    if n >= 10 {
        lemma_dec_rep_digits(n / 10);
        assert(n / 10 >= 1);
        assert(forall|m: int|
            0 <= m < dec_rep(n).len() ==> is_digit_byte(#[trigger] dec_rep(n)[m])) by {
            assert(forall|m: int|
                0 <= m < dec_rep(n / 10).len() ==> dec_rep(n)[m] == #[trigger] dec_rep(
                    n / 10,
                )[m]);
            assert(dec_rep(n)[dec_rep(n).len() - 1] == (DIGIT_ZERO + n % 10) as u8);
        }
    }
}

/// Reading back the decimal digits of `n` yields `n`.
proof fn lemma_dec_rep_val(n: nat)
    ensures
        dec_val(dec_rep(n), 0, dec_rep(n).len() as int) == n,
    decreases n,
{
    let d = dec_rep(n);
    if n < 10 {
        assert(dec_val(d, 0, 0) == 0);
        assert(dec_val(d, 0, 1) == d[0] - DIGIT_ZERO);
    } else {
        lemma_dec_rep_val(n / 10);
        let front = dec_rep(n / 10);
        assert(forall|m: int| 0 <= m < front.len() ==> front[m] == #[trigger] d[m]);
        lemma_dec_val_congr(front, d, 0, front.len() as int);
        assert(d[d.len() - 1] == (DIGIT_ZERO + n % 10) as u8);
        assert(dec_val(d, 0, d.len() as int) == dec_val(d, 0, d.len() - 1) * 10 + (d[d.len() - 1]
            - DIGIT_ZERO));
        vstd::arithmetic::div_mod::lemma_fundamental_div_mod(n as int, 10);
    }
}

// ------------------------------------------------------------------
// Completeness: canonical bytes parse back to the record they came from
// ------------------------------------------------------------------

/// The canonical digits of `n`, followed by a non-digit or the end, parse to
/// `n`.
proof fn lemma_sp_number_complete(s: Seq<u8>, i: int, n: nat)
    requires
        n <= u64::MAX,
        0 <= i,
        i + dec_rep(n).len() <= s.len(),
        s.subrange(i, i + dec_rep(n).len() as int) == dec_rep(n),
        i + dec_rep(n).len() == s.len() || !is_digit_byte(s[i + dec_rep(n).len()]),
    ensures
        sp_number(s, i) == Some((FieldValue::Num(n), i + dec_rep(n).len() as int)),
{
    let d = dec_rep(n);
    let k = i + d.len();
    lemma_dec_rep_digits(n);
    assert(forall|m: int| i <= m < k ==> s[m] == d[m - i]) by {
        assert(forall|m: int| 0 <= m < d.len() ==> s.subrange(i, k)[m] == #[trigger] d[m]);
    }
    assert(forall|m: int| i <= m < k ==> is_digit_byte(#[trigger] s[m]));
    lemma_digits_end_scan(s, i, k);
    assert(s[i] == d[0]);
    if s[i] == DIGIT_ZERO {
        assert(d.len() == 1);
    }
    lemma_dec_val_shift(s, i, k);
    lemma_dec_val_congr(s.subrange(i, k), d, 0, d.len() as int);
    lemma_dec_rep_val(n);
    assert(dec_val(s, i, k) == n);
}

/// Canonical value bytes, followed by a non-digit or the end, parse to the
/// value they serialize.
proof fn lemma_sp_value_complete(s: Seq<u8>, i: int, v: FieldValue)
    requires
        value_wf(v),
        0 <= i,
        i + value_bytes(v).len() <= s.len(),
        s.subrange(i, i + value_bytes(v).len() as int) == value_bytes(v),
        i + value_bytes(v).len() == s.len() || !is_digit_byte(s[i + value_bytes(v).len()]),
    ensures
        sp_value(s, i) == Some((v, i + value_bytes(v).len() as int)),
{
    let vb = value_bytes(v);
    let k = i + vb.len();
    assert(forall|m: int| i <= m < k ==> s[m] == vb[m - i]) by {
        assert(forall|m: int| 0 <= m < vb.len() ==> s.subrange(i, k)[m] == #[trigger] vb[m]);
    }
    match v {
        FieldValue::Null => {
            assert(s[i] == 0x6e);
            assert(!matches_at(s, i, lit_true())) by {
                if matches_at(s, i, lit_true()) {
                    assert(s.subrange(i, i + 4)[0] == 0x74);
                }
            }
            assert(!matches_at(s, i, lit_false())) by {
                if matches_at(s, i, lit_false()) {
                    assert(s.subrange(i, i + 5)[0] == 0x66);
                }
            }
            assert(matches_at(s, i, lit_null()));
        },
        FieldValue::Truth(b) => {
            if b {
                assert(s[i] == 0x74);
                assert(matches_at(s, i, lit_true()));
            } else {
                assert(s[i] == 0x66);
                assert(!matches_at(s, i, lit_true())) by {
                    if matches_at(s, i, lit_true()) {
                        assert(s.subrange(i, i + 4)[0] == 0x74);
                    }
                }
                assert(matches_at(s, i, lit_false()));
            }
        },
        FieldValue::Num(n) => {
            lemma_dec_rep_digits(n);
            assert(s[i] == dec_rep(n)[0]);
            lemma_sp_number_complete(s, i, n);
        },
        FieldValue::Txt(t) => {
            assert(s[i] == QUOTE);
            assert(s[i + 1 + esc(t).len()] == QUOTE) by {
                assert(vb[1 + esc(t).len() as int] == QUOTE);
            }
            assert(s.subrange(i + 1, i + 1 + esc(t).len() as int) =~= esc(t)) by {
                assert(forall|m: int| 0 <= m < esc(t).len() ==> s[i + 1 + m] == #[trigger] esc(
                    t,
                )[m]) by {
                    assert(forall|m: int| 0 <= m < esc(t).len() ==> vb[1 + m] == #[trigger] esc(
                        t,
                    )[m]);
                }
            }
            lemma_strbody_complete(s, i + 1, t);
        },
    }
}

/// Canonical member bytes, followed by a separator, parse to the member.
#[verifier::rlimit(60)]
proof fn lemma_sp_member_complete(s: Seq<u8>, i: int, f: FieldModel)
    requires
        field_wf(f),
        0 <= i,
        i + field_bytes(f).len() < s.len(),
        s.subrange(i, i + field_bytes(f).len() as int) == field_bytes(f),
        !is_digit_byte(s[i + field_bytes(f).len()]),
    ensures
        sp_member(s, i) == Some((f, i + field_bytes(f).len() as int)),
{
    let fb = field_bytes(f);
    let kb = str_bytes(f.key);
    let vb = value_bytes(f.value);
    let k = i + fb.len();
    assert(forall|m: int| i <= m < k ==> s[m] == fb[m - i]) by {
        assert(forall|m: int| 0 <= m < fb.len() ==> s.subrange(i, k)[m] == #[trigger] fb[m]);
    }
    // the key string
    assert(s[i] == QUOTE);
    assert(s[i + 1 + esc(f.key).len()] == QUOTE) by {
        assert(fb[1 + esc(f.key).len() as int] == QUOTE);
    }
    assert(s.subrange(i + 1, i + 1 + esc(f.key).len() as int) =~= esc(f.key)) by {
        assert(forall|m: int| 0 <= m < esc(f.key).len() ==> s[i + 1 + m] == #[trigger] esc(
            f.key,
        )[m]) by {
            assert(forall|m: int| 0 <= m < esc(f.key).len() ==> fb[1 + m] == #[trigger] esc(
                f.key,
            )[m]);
        }
    }
    lemma_strbody_complete(s, i + 1, f.key);
    // canonical bytes carry no whitespace at the token joints
    assert(ws_end(s, i) == i);
    let j = i + kb.len();
    assert(s[j] == COLON) by {
        assert(fb[kb.len() as int] == COLON);
    }
    assert(ws_end(s, j) == j);
    // the value
    assert(s.subrange(j + 1, j + 1 + vb.len() as int) =~= vb) by {
        assert(forall|m: int| 0 <= m < vb.len() ==> s[j + 1 + m] == #[trigger] vb[m]) by {
            assert(forall|m: int| 0 <= m < vb.len() ==> fb[kb.len() + 1 + m] == #[trigger] vb[m]);
        }
    }
    lemma_value_head(f.value);
    assert(s[j + 1] == vb[0]);
    assert(ws_end(s, j + 1) == j + 1);
    lemma_sp_value_complete(s, j + 1, f.value);
}

/// A canonical member list, closed by a brace, parses to itself.
#[verifier::rlimit(90)]
proof fn lemma_sp_members_complete(s: Seq<u8>, i: int, m: Seq<FieldModel>)
    requires
        m.len() >= 1,
        model_wf(m),
        0 <= i,
        i + fields_bytes(m).len() < s.len(),
        s.subrange(i, i + fields_bytes(m).len() as int) == fields_bytes(m),
        s[i + fields_bytes(m).len()] == RBRACE,
    ensures
        sp_members(s, i) == Some((m, i + fields_bytes(m).len() as int)),
    decreases m.len(),
{
    let mb = fields_bytes(m);
    let k = i + mb.len();
    assert(forall|n: int| i <= n < k ==> s[n] == mb[n - i]) by {
        assert(forall|n: int| 0 <= n < mb.len() ==> s.subrange(i, k)[n] == #[trigger] mb[n]);
    }
    if m.len() == 1 {
        assert(mb == field_bytes(m[0]));
        assert(s.subrange(i, i + field_bytes(m[0]).len() as int) == field_bytes(m[0]));
        lemma_sp_member_complete(s, i, m[0]);
        let j = i + field_bytes(m[0]).len();
        assert(s[j] == RBRACE);
        assert(ws_end(s, j) == j);
        assert(seq![m[0]] =~= m);
    } else {
        let fb0 = field_bytes(m[0]);
        assert(mb == fb0 + seq![COMMA] + fields_bytes(m.skip(1)));
        assert(s.subrange(i, i + fb0.len() as int) =~= fb0) by {
            assert(forall|n: int| 0 <= n < fb0.len() ==> mb[n] == #[trigger] fb0[n]);
        }
        let j = i + fb0.len();
        assert(s[j] == COMMA) by {
            assert(mb[fb0.len() as int] == COMMA);
        }
        lemma_sp_member_complete(s, i, m[0]);
        assert(ws_end(s, j) == j);
        let rb = fields_bytes(m.skip(1));
        assert(s.subrange(j + 1, j + 1 + rb.len() as int) =~= rb) by {
            assert(forall|n: int| 0 <= n < rb.len() ==> mb[fb0.len() + 1 + n] == #[trigger] rb[n]);
        }
        assert(model_wf(m.skip(1))) by {
            assert(forall|n: int| 0 <= n < m.skip(1).len() ==> #[trigger] m.skip(1)[n] == m[n + 1]);
        }
        lemma_sp_members_complete(s, j + 1, m.skip(1));
        assert(seq![m[0]] + m.skip(1) =~= m);
    }
}

/// Every value starts with at least one byte, and never with whitespace.
proof fn lemma_value_head(v: FieldValue)
    ensures
        value_bytes(v).len() >= 1,
        !is_ws_byte(value_bytes(v)[0]),
{
    match v {
        FieldValue::Num(n) => {
            lemma_dec_rep_digits(n);
            assert(is_digit_byte(value_bytes(v)[0]));
        },
        _ => {},
    }
}

/// Round trip of the canonical form: serializing a well-formed record and
/// parsing the bytes back yields the record unchanged. This is the exact
/// sense in which the wire format loses nothing.
pub proof fn lemma_record_round_trip(m: Seq<FieldModel>)
    requires
        model_wf(m),
    ensures
        sp_record(record_bytes(m)) == Some(m),
{
    let s = record_bytes(m);
    assert(s[0] == LBRACE);
    assert(s[s.len() - 1] == RBRACE);
    if m.len() == 0 {
        assert(fields_bytes(m) == Seq::<u8>::empty());
        assert(s.len() == 2);
        assert(ws_end(s, 1) == 1);
        assert(m =~= Seq::<FieldModel>::empty());
    } else {
        let mb = fields_bytes(m);
        assert(mb.len() >= 1) by {
            lemma_value_head(m[0].value);
            if m.len() == 1 {
                assert(mb == field_bytes(m[0]));
            }
        }
        assert(s.len() > 2);
        assert(s.subrange(1, 1 + mb.len() as int) =~= mb);
        assert(s[1 + mb.len() as int] == RBRACE);
        // the first byte after the brace opens the first key: no whitespace
        assert(s[1] == QUOTE) by {
            assert(mb[0] == field_bytes(m[0])[0]) by {
                if m.len() > 1 {
                    assert(mb == field_bytes(m[0]) + seq![COMMA] + fields_bytes(m.skip(1)));
                }
            }
            assert(field_bytes(m[0])[0] == QUOTE);
            assert(s[1] == mb[0]);
        }
        assert(ws_end(s, 1) == 1);
        lemma_sp_members_complete(s, 1, m);
        assert(ws_end(s, 1 + mb.len() as int) == 1 + mb.len() as int);
    }
}

/// Distinct well-formed records never share canonical bytes.
pub proof fn lemma_record_bytes_injective(m1: Seq<FieldModel>, m2: Seq<FieldModel>)
    requires
        model_wf(m1),
        model_wf(m2),
        record_bytes(m1) == record_bytes(m2),
    ensures
        m1 == m2,
{
    lemma_record_round_trip(m1);
    lemma_record_round_trip(m2);
}

// ------------------------------------------------------------------
// Executable record values
// ------------------------------------------------------------------

/// One member value as carried at run time.
#[derive(Debug, Clone, PartialEq, Eq)]
pub enum JsonValue {
    Null,
    Truth(bool),
    Num(u64),
    Txt(Vec<u8>),
}

/// One record member as carried at run time.
#[derive(Debug, Clone, PartialEq, Eq)]
pub struct JsonField {
    pub key: Vec<u8>,
    pub value: JsonValue,
}

/// One record as carried at run time: members in wire order.
#[derive(Debug, Clone, PartialEq, Eq)]
pub struct JsonRecord {
    pub fields: Vec<JsonField>,
}

impl View for JsonValue {
    type V = FieldValue;

    open spec fn view(&self) -> FieldValue {
        match self {
            JsonValue::Null => FieldValue::Null,
            JsonValue::Truth(b) => FieldValue::Truth(*b),
            JsonValue::Num(n) => FieldValue::Num(*n as nat),
            JsonValue::Txt(t) => FieldValue::Txt(t@),
        }
    }
}

impl View for JsonField {
    type V = FieldModel;

    open spec fn view(&self) -> FieldModel {
        FieldModel { key: self.key@, value: self.value@ }
    }
}

/// The models of a member list, in order.
pub open spec fn fields_model(fs: Seq<JsonField>) -> Seq<FieldModel> {
    fs.map_values(|f: JsonField| f@)
}

impl View for JsonRecord {
    type V = Seq<FieldModel>;

    open spec fn view(&self) -> Seq<FieldModel> {
        fields_model(self.fields@)
    }
}

impl JsonValue {
    /// The value's bytes can stand on the wire.
    pub open spec fn wf(&self) -> bool {
        value_wf(self@)
    }
}

impl JsonField {
    /// The member's bytes can stand on the wire.
    pub open spec fn wf(&self) -> bool {
        field_wf(self@)
    }
}

impl JsonRecord {
    /// The record's bytes can stand on the wire.
    pub open spec fn wf(&self) -> bool {
        model_wf(self@)
    }

    /// A record with no members.
    pub fn empty() -> (r: JsonRecord)
        ensures
            r@ =~= Seq::<FieldModel>::empty(),
            r.wf(),
    {
        JsonRecord { fields: Vec::new() }
    }

    /// Append a member; it becomes the last on the wire.
    pub fn push_field(&mut self, key: Vec<u8>, value: JsonValue)
        ensures
            final(self)@ =~= old(self)@ + seq![FieldModel { key: key@, value: value@ }],
    {
        self.fields.push(JsonField { key, value });
        proof {
            assert(final(self)@ =~= old(self)@ + seq![FieldModel { key: key@, value: value@ }]);
        }
    }
}

// ------------------------------------------------------------------
// Executable serializer
// ------------------------------------------------------------------

/// Write the decimal digits of `n`, most significant first, after `out`.
pub fn push_decimal(n: u64, out: &mut Vec<u8>)
    ensures
        final(out)@ == old(out)@ + dec_rep(n as nat),
    decreases n,
{
    if n >= 10 {
        push_decimal(n / 10, out);
    }
    out.push(DIGIT_ZERO + (n % 10) as u8);
    proof {
        if n < 10 {
            assert(dec_rep(n as nat) =~= seq![(DIGIT_ZERO + n % 10) as u8]);
        } else {
            assert(dec_rep(n as nat) =~= dec_rep((n / 10) as nat) + seq![
                (DIGIT_ZERO + n % 10) as u8,
            ]);
        }
        assert(final(out)@ =~= old(out)@ + dec_rep(n as nat));
    }
}

/// Write `t` between double quotes after `out`, escaping as it goes.
fn push_string(t: &Vec<u8>, out: &mut Vec<u8>)
    ensures
        final(out)@ == old(out)@ + str_bytes(t@),
{
    out.push(QUOTE);
    let n = t.len();
    let mut i: usize = 0;
    proof {
        assert(t@.take(0) =~= Seq::<u8>::empty());
        assert(esc(t@.take(0)) =~= Seq::<u8>::empty());
        assert(out@ =~= old(out)@ + seq![QUOTE] + esc(t@.take(0)));
    }
    while i < n
        invariant
            i <= n,
            n == t@.len(),
            out@ == old(out)@ + seq![QUOTE] + esc(t@.take(i as int)),
        decreases n - i,
    {
        let b = t[i];
        if b == QUOTE || b == BACKSLASH {
            out.push(BACKSLASH);
            out.push(b);
        } else if b == 0x08 {
            out.push(BACKSLASH);
            out.push(0x62);
        } else if b == 0x0c {
            out.push(BACKSLASH);
            out.push(0x66);
        } else if b == 0x0a {
            out.push(BACKSLASH);
            out.push(0x6e);
        } else if b == 0x0d {
            out.push(BACKSLASH);
            out.push(0x72);
        } else if b == 0x09 {
            out.push(BACKSLASH);
            out.push(0x74);
        } else if b < 0x20 {
            out.push(BACKSLASH);
            out.push(0x75);
            out.push(0x30);
            out.push(0x30);
            let hi = b / 16;
            let lo = b % 16;
            out.push(
                if hi < 10 {
                    0x30 + hi
                } else {
                    0x61 + hi - 10
                },
            );
            out.push(
                if lo < 10 {
                    0x30 + lo
                } else {
                    0x61 + lo - 10
                },
            );
        } else {
            out.push(b);
        }
        i = i + 1;
        proof {
            lemma_esc_snoc(t@.take(i as int - 1), t@[i as int - 1]);
            assert(t@.take(i as int) =~= t@.take(i as int - 1).push(t@[i as int - 1]));
            assert(out@ =~= old(out)@ + seq![QUOTE] + esc(t@.take(i as int)));
        }
    }
    out.push(QUOTE);
    proof {
        assert(t@.take(n as int) =~= t@);
        assert(final(out)@ =~= old(out)@ + str_bytes(t@));
    }
}

/// Write one value in canonical form after `out`.
fn push_value(v: &JsonValue, out: &mut Vec<u8>)
    ensures
        final(out)@ == old(out)@ + value_bytes(v@),
{
    match v {
        JsonValue::Null => {
            out.push(0x6e);
            out.push(0x75);
            out.push(0x6c);
            out.push(0x6c);
            proof {
                assert(final(out)@ =~= old(out)@ + lit_null());
            }
        },
        JsonValue::Truth(b) => {
            if *b {
                out.push(0x74);
                out.push(0x72);
                out.push(0x75);
                out.push(0x65);
                proof {
                    assert(final(out)@ =~= old(out)@ + lit_true());
                }
            } else {
                out.push(0x66);
                out.push(0x61);
                out.push(0x6c);
                out.push(0x73);
                out.push(0x65);
                proof {
                    assert(final(out)@ =~= old(out)@ + lit_false());
                }
            }
        },
        JsonValue::Num(n) => {
            push_decimal(*n, out);
        },
        JsonValue::Txt(t) => {
            push_string(t, out);
        },
    }
}

/// Write one member, `"key":value`, after `out`.
fn push_field(f: &JsonField, out: &mut Vec<u8>)
    ensures
        final(out)@ == old(out)@ + field_bytes(f@),
{
    push_string(&f.key, out);
    out.push(COLON);
    push_value(&f.value, out);
    proof {
        assert(final(out)@ =~= old(out)@ + field_bytes(f@));
    }
}

/// Appending a member to a list appends its bytes, after a comma when the
/// list was not empty.
proof fn lemma_fields_bytes_snoc(m: Seq<FieldModel>, f: FieldModel)
    ensures
        m.len() == 0 ==> fields_bytes(m + seq![f]) == field_bytes(f),
        m.len() > 0 ==> fields_bytes(m + seq![f]) == fields_bytes(m) + seq![COMMA] + field_bytes(
            f,
        ),
    decreases m.len(),
{
    let w = m + seq![f];
    if m.len() == 0 {
        assert(w.len() == 1);
        assert(w[0] == f);
        assert(fields_bytes(w) == field_bytes(f));
    } else if m.len() == 1 {
        assert(w.len() == 2);
        assert(w[0] == m[0]);
        assert(w.skip(1) =~= seq![f]);
        assert(fields_bytes(w.skip(1)) == field_bytes(f));
        assert(fields_bytes(m) == field_bytes(m[0]));
    } else {
        lemma_fields_bytes_snoc(m.skip(1), f);
        assert(w.skip(1) =~= m.skip(1) + seq![f]);
        assert(w[0] == m[0]);
        assert(fields_bytes(m + seq![f]) =~= fields_bytes(m) + seq![COMMA] + field_bytes(f));
    }
}

// ------------------------------------------------------------------
// Executable parser, proved equal to the grammar
// ------------------------------------------------------------------

/// Skip insignificant whitespace.
fn skip_ws(s: &[u8], i: usize) -> (r: usize)
    requires
        i <= s.len(),
    ensures
        r == ws_end(s@, i as int),
        i <= r <= s.len(),
{
    let n = s.len();
    let mut k = i;
    while k < n && (s[k] == 0x20 || s[k] == 0x09 || s[k] == 0x0a || s[k] == 0x0d)
        invariant
            i <= k <= n,
            n == s.len(),
            ws_end(s@, i as int) == ws_end(s@, k as int),
        decreases n - k,
    {
        k = k + 1;
    }
    k
}

/// Read one hexadecimal digit byte, either case.
fn hex_nibble(c: u8) -> (r: Option<u8>)
    ensures
        match r {
            Some(v) => is_hex_byte(c) && v as int == hex_val(c) && v < 16,
            None => !is_hex_byte(c),
        },
{
    if 0x30 <= c && c <= 0x39 {
        Some(c - 0x30)
    } else if 0x61 <= c && c <= 0x66 {
        Some(c - 0x61 + 10)
    } else if 0x41 <= c && c <= 0x46 {
        Some(c - 0x41 + 10)
    } else {
        None
    }
}

/// Parse a string body: scan to the closing quote, resolving escapes, and
/// collect the text.
fn parse_string_body(s: &[u8], i: usize) -> (r: Option<(Vec<u8>, usize)>)
    requires
        i <= s.len(),
    ensures
        match r {
            Some((t, j)) => sp_strbody(s@, i as int) == Some((t@, j as int)) && i < j <= s.len(),
            None => sp_strbody(s@, i as int) is None,
        },
{
    let n = s.len();
    let mut acc: Vec<u8> = Vec::new();
    let mut k = i;
    loop
        invariant
            i <= k <= n,
            n == s.len(),
            match sp_strbody(s@, k as int) {
                Some((t, j)) => sp_strbody(s@, i as int) == Some((acc@ + t, j)),
                None => sp_strbody(s@, i as int) is None,
            },
        decreases n - k,
    {
        if k >= n {
            return None;
        }
        let b = s[k];
        if b == QUOTE {
            proof {
                assert(acc@ + Seq::<u8>::empty() =~= acc@);
            }
            return Some((acc, k + 1));
        } else if b == BACKSLASH {
            if k + 1 < n && (s[k + 1] == 0x22 || s[k + 1] == 0x5c || s[k + 1] == 0x2f || s[k + 1]
                == 0x62 || s[k + 1] == 0x66 || s[k + 1] == 0x6e || s[k + 1] == 0x72 || s[k + 1]
                == 0x74) {
                let c = s[k + 1];
                let mapped: u8 = if c == 0x62 {
                    0x08
                } else if c == 0x66 {
                    0x0c
                } else if c == 0x6e {
                    0x0a
                } else if c == 0x72 {
                    0x0d
                } else if c == 0x74 {
                    0x09
                } else {
                    c
                };
                let ghost prev = acc@;
                acc.push(mapped);
                proof {
                    assert(mapped == unescape_char(s@[k as int + 1]));
                    if let Some((t2, j2)) = sp_strbody(s@, k as int + 2) {
                        assert(sp_strbody(s@, k as int) == Some((seq![
                            unescape_char(s@[k as int + 1]),
                        ] + t2, j2)));
                        assert(acc@ + t2 =~= prev + (seq![unescape_char(s@[k as int + 1])] + t2));
                    }
                }
                k = k + 2;
            } else if k + 1 < n && s[k + 1] == 0x75 && n - k > 5 {
                let h1 = hex_nibble(s[k + 2]);
                let h2 = hex_nibble(s[k + 3]);
                let h3 = hex_nibble(s[k + 4]);
                let h4 = hex_nibble(s[k + 5]);
                match (h1, h2, h3, h4) {
                    (Some(a1), Some(a2), Some(a3), Some(a4)) => {
                        let v: u32 = a1 as u32 * 4096 + a2 as u32 * 256 + a3 as u32 * 16
                            + a4 as u32;
                        proof {
                            assert(hex4_at(s@, k as int + 2));
                            assert(hex4_val(s@, k as int + 2) == v as int);
                        }
                        if v < 0x80 {
                            let ghost prev = acc@;
                            acc.push(v as u8);
                            proof {
                                if let Some((t2, j2)) = sp_strbody(s@, k as int + 6) {
                                    assert(sp_strbody(s@, k as int) == Some((seq![
                                        hex4_val(s@, k as int + 2) as u8,
                                    ] + t2, j2)));
                                    assert(acc@ + t2 =~= prev + (seq![
                                        hex4_val(s@, k as int + 2) as u8,
                                    ] + t2));
                                }
                            }
                            k = k + 6;
                        } else {
                            return None;
                        }
                    },
                    _ => {
                        proof {
                            assert(!hex4_at(s@, k as int + 2));
                        }
                        return None;
                    },
                }
            } else {
                return None;
            }
        } else if 0x20 <= b {
            let ghost prev = acc@;
            acc.push(b);
            proof {
                if let Some((t2, j2)) = sp_strbody(s@, k as int + 1) {
                    assert(sp_strbody(s@, k as int) == Some((seq![s@[k as int]] + t2, j2)));
                    assert(acc@ + t2 =~= prev + (seq![s@[k as int]] + t2));
                }
            }
            k = k + 1;
        } else {
            return None;
        }
    }
}

/// Parse a canonical unsigned number.
fn parse_number(s: &[u8], i: usize) -> (r: Option<(JsonValue, usize)>)
    requires
        i <= s.len(),
    ensures
        match r {
            Some((v, j)) => sp_number(s@, i as int) == Some((v@, j as int)) && i < j <= s.len(),
            None => sp_number(s@, i as int) is None,
        },
{
    let n = s.len();
    if i >= n || s[i] < DIGIT_ZERO || s[i] > 0x39 {
        return None;
    }
    let mut k = i;
    while k < n && DIGIT_ZERO <= s[k] && s[k] <= 0x39
        invariant
            i <= k <= n,
            n == s.len(),
            forall|m: int| i <= m < k ==> is_digit_byte(#[trigger] s@[m]),
        decreases n - k,
    {
        k = k + 1;
    }
    proof {
        lemma_digits_end_scan(s@, i as int, k as int);
    }
    if s[i] == DIGIT_ZERO && k != i + 1 {
        return None;
    }
    let mut acc: u64 = 0;
    let mut m = i;
    while m < k
        invariant
            i <= m <= k <= n,
            n == s.len(),
            forall|q: int| i <= q < k ==> is_digit_byte(#[trigger] s@[q]),
            acc == dec_val(s@, i as int, m as int),
            i < n && is_digit_byte(s@[i as int]),
            digits_end(s@, i as int) == k as int,
            !(s@[i as int] == DIGIT_ZERO && k != i + 1),
        decreases k - m,
    {
        let d = s[m] - DIGIT_ZERO;
        let wide: u128 = acc as u128 * 10 + d as u128;
        if wide > u64::MAX as u128 {
            proof {
                assert(dec_val(s@, i as int, m as int + 1) > u64::MAX);
                lemma_dec_val_mono(s@, i as int, m as int + 1, k as int);
            }
            return None;
        }
        acc = wide as u64;
        m = m + 1;
    }
    Some((JsonValue::Num(acc), k))
}

/// Parse one scalar value.
fn parse_value(s: &[u8], i: usize) -> (r: Option<(JsonValue, usize)>)
    requires
        i <= s.len(),
    ensures
        match r {
            Some((v, j)) => sp_value(s@, i as int) == Some((v@, j as int)) && i < j <= s.len()
                && v.wf(),
            None => sp_value(s@, i as int) is None,
        },
{
    let n = s.len();
    if i >= n {
        return None;
    }
    let b = s[i];
    if b == QUOTE {
        match parse_string_body(s, i + 1) {
            Some((t, j)) => Some((JsonValue::Txt(t), j)),
            None => None,
        }
    } else if DIGIT_ZERO <= b && b <= 0x39 {
        match parse_number(s, i) {
            Some((v, j)) => Some((v, j)),
            None => None,
        }
    } else if n - i >= 4 && s[i] == 0x74 && s[i + 1] == 0x72 && s[i + 2] == 0x75 && s[i + 3]
        == 0x65 {
        proof {
            assert(s@.subrange(i as int, i as int + 4) =~= lit_true());
        }
        Some((JsonValue::Truth(true), i + 4))
    } else if n - i >= 5 && s[i] == 0x66 && s[i + 1] == 0x61 && s[i + 2] == 0x6c && s[i + 3]
        == 0x73 && s[i + 4] == 0x65 {
        proof {
            assert(!matches_at(s@, i as int, lit_true())) by {
                if matches_at(s@, i as int, lit_true()) {
                    assert(s@.subrange(i as int, i as int + 4)[0] == 0x74);
                }
            }
            assert(s@.subrange(i as int, i as int + 5) =~= lit_false());
        }
        Some((JsonValue::Truth(false), i + 5))
    } else if n - i >= 4 && s[i] == 0x6e && s[i + 1] == 0x75 && s[i + 2] == 0x6c && s[i + 3]
        == 0x6c {
        proof {
            assert(!matches_at(s@, i as int, lit_true())) by {
                if matches_at(s@, i as int, lit_true()) {
                    assert(s@.subrange(i as int, i as int + 4)[0] == 0x74);
                }
            }
            assert(!matches_at(s@, i as int, lit_false())) by {
                if matches_at(s@, i as int, lit_false()) {
                    assert(s@.subrange(i as int, i as int + 5)[0] == 0x66);
                }
            }
            assert(s@.subrange(i as int, i as int + 4) =~= lit_null());
        }
        Some((JsonValue::Null, i + 4))
    } else {
        proof {
            assert(!matches_at(s@, i as int, lit_true())) by {
                if matches_at(s@, i as int, lit_true()) {
                    assert(s@.subrange(i as int, i as int + 4)[0] == 0x74);
                    assert(s@.subrange(i as int, i as int + 4)[1] == 0x72);
                    assert(s@.subrange(i as int, i as int + 4)[2] == 0x75);
                    assert(s@.subrange(i as int, i as int + 4)[3] == 0x65);
                }
            }
            assert(!matches_at(s@, i as int, lit_false())) by {
                if matches_at(s@, i as int, lit_false()) {
                    assert(s@.subrange(i as int, i as int + 5)[0] == 0x66);
                    assert(s@.subrange(i as int, i as int + 5)[1] == 0x61);
                    assert(s@.subrange(i as int, i as int + 5)[2] == 0x6c);
                    assert(s@.subrange(i as int, i as int + 5)[3] == 0x73);
                    assert(s@.subrange(i as int, i as int + 5)[4] == 0x65);
                }
            }
            assert(!matches_at(s@, i as int, lit_null())) by {
                if matches_at(s@, i as int, lit_null()) {
                    assert(s@.subrange(i as int, i as int + 4)[0] == 0x6e);
                    assert(s@.subrange(i as int, i as int + 4)[1] == 0x75);
                    assert(s@.subrange(i as int, i as int + 4)[2] == 0x6c);
                    assert(s@.subrange(i as int, i as int + 4)[3] == 0x6c);
                }
            }
        }
        None
    }
}

/// Parse one member, `"key" : value`, whitespace allowed around tokens.
fn parse_member(s: &[u8], i: usize) -> (r: Option<(JsonField, usize)>)
    requires
        i <= s.len(),
    ensures
        match r {
            Some((f, j)) => sp_member(s@, i as int) == Some((f@, j as int)) && i < j <= s.len()
                && f.wf(),
            None => sp_member(s@, i as int) is None,
        },
{
    let n = s.len();
    let i0 = skip_ws(s, i);
    if i0 >= n || s[i0] != QUOTE {
        return None;
    }
    match parse_string_body(s, i0 + 1) {
        None => None,
        Some((k, j)) => {
            let jc = skip_ws(s, j);
            if jc < n && s[jc] == COLON {
                let v0 = skip_ws(s, jc + 1);
                match parse_value(s, v0) {
                    Some((v, l)) => Some((JsonField { key: k, value: v }, l)),
                    None => None,
                }
            } else {
                None
            }
        },
    }
}

/// Parse a comma-separated member list.
fn parse_members(s: &[u8], i: usize) -> (r: Option<(Vec<JsonField>, usize)>)
    requires
        i <= s.len(),
    ensures
        match r {
            Some((fs, j)) => sp_members(s@, i as int) == Some((fields_model(fs@), j as int)) && i
                < j <= s.len(),
            None => sp_members(s@, i as int) is None,
        },
    decreases s.len() - i,
{
    match parse_member(s, i) {
        None => None,
        Some((f, j)) => {
            let jc = skip_ws(s, j);
            if jc < s.len() && s[jc] == COMMA {
                match parse_members(s, jc + 1) {
                    Some((fs, l)) => {
                        let ghost rest = fields_model(fs@);
                        let mut fs = fs;
                        fs.insert(0, f);
                        proof {
                            assert(fields_model(fs@) =~= seq![f@] + rest);
                        }
                        Some((fs, l))
                    },
                    None => None,
                }
            } else {
                let mut fs: Vec<JsonField> = Vec::new();
                fs.push(f);
                proof {
                    assert(fields_model(fs@) =~= seq![f@]);
                }
                Some((fs, j))
            }
        },
    }
}

/// Parse a whole record, consuming all of `s`: the grammar accepts every
/// canonical byte form (the round-trip theorem) and tolerates insignificant
/// whitespace between tokens and the standard string escapes on the way in.
pub fn parse_record(s: &[u8]) -> (r: Option<JsonRecord>)
    ensures
        match r {
            Some(rec) => sp_record(s@) == Some(rec@) && rec.wf(),
            None => sp_record(s@) is None,
        },
{
    let n = s.len();
    if n < 2 || s[0] != LBRACE {
        return None;
    }
    let a = skip_ws(s, 1);
    if a < n && s[a] == RBRACE && a + 1 == n {
        let rec = JsonRecord { fields: Vec::new() };
        proof {
            assert(rec@ =~= Seq::<FieldModel>::empty());
        }
        return Some(rec);
    }
    match parse_members(s, 1) {
        None => None,
        Some((fs, j)) => {
            let e = skip_ws(s, j);
            if e < n && s[e] == RBRACE && e + 1 == n {
                let rec = JsonRecord { fields: fs };
                proof {
                    assert forall|q: int| 0 <= q < rec@.len() implies field_wf(
                        #[trigger] rec@[q],
                    ) by {
                        assert(rec@[q] == rec.fields@[q]@);
                    }
                }
                Some(rec)
            } else {
                None
            }
        },
    }
}

// ------------------------------------------------------------------
// Field lookup
// ------------------------------------------------------------------

/// The value of the first member with the given key, if any.
pub open spec fn lookup(m: Seq<FieldModel>, k: Seq<u8>) -> Option<FieldValue>
    decreases m.len(),
{
    if m.len() == 0 {
        None
    } else if m[0].key == k {
        Some(m[0].value)
    } else {
        lookup(m.skip(1), k)
    }
}

/// Byte-for-byte equality of two slices.
pub fn bytes_eq(a: &[u8], b: &[u8]) -> (r: bool)
    ensures
        r == (a@ == b@),
{
    if a.len() != b.len() {
        proof {
            assert(a@.len() != b@.len());
        }
        return false;
    }
    let n = a.len();
    let mut i: usize = 0;
    while i < n
        invariant
            i <= n,
            n == a.len() == b.len(),
            forall|m: int| 0 <= m < i ==> a@[m] == b@[m],
        decreases n - i,
    {
        if a[i] != b[i] {
            return false;
        }
        i = i + 1;
    }
    proof {
        assert(a@ =~= b@);
    }
    true
}

impl JsonRecord {
    /// The first member named `key`, if any.
    pub fn get<'a>(&'a self, key: &[u8]) -> (r: Option<&'a JsonValue>)
        ensures
            match r {
                Some(v) => lookup(self@, key@) == Some(v@),
                None => lookup(self@, key@) is None,
            },
    {
        let n = self.fields.len();
        let mut i: usize = 0;
        proof {
            assert(self@.skip(0) =~= self@);
        }
        while i < n
            invariant
                i <= n,
                n == self.fields.len(),
                lookup(self@, key@) == lookup(self@.skip(i as int), key@),
        decreases n - i,
        {
            proof {
                assert(self@.skip(i as int)[0] == self@[i as int]);
                assert(self@[i as int] == self.fields@[i as int]@);
            }
            if bytes_eq(self.fields[i].key.as_slice(), key) {
                return Some(&self.fields[i].value);
            }
            proof {
                assert(self@.skip(i as int).skip(1) =~= self@.skip(i as int + 1));
            }
            i = i + 1;
        }
        proof {
            assert(self@.skip(n as int) =~= Seq::<FieldModel>::empty());
        }
        None
    }
}

/// Serialize a record to its canonical bytes.
pub fn serialize_record(rec: &JsonRecord) -> (out: Vec<u8>)
    ensures
        out@ == record_bytes(rec@),
{
    let mut out: Vec<u8> = Vec::new();
    out.push(LBRACE);
    let n = rec.fields.len();
    let mut i: usize = 0;
    while i < n
        invariant
            n == rec.fields.len(),
            i <= n,
            out@ == seq![LBRACE] + fields_bytes(rec@.take(i as int)),
        decreases n - i,
    {
        if i > 0 {
            out.push(COMMA);
        }
        push_field(&rec.fields[i], &mut out);
        proof {
            lemma_fields_bytes_snoc(rec@.take(i as int), rec@[i as int]);
            assert(rec@.take(i as int + 1) =~= rec@.take(i as int) + seq![rec@[i as int]]);
            assert(out@ =~= seq![LBRACE] + fields_bytes(rec@.take(i as int + 1)));
        }
        i = i + 1;
    }
    out.push(RBRACE);
    proof {
        assert(rec@.take(n as int) =~= rec@);
        assert(out@ =~= record_bytes(rec@));
    }
    out
}

} // verus!
