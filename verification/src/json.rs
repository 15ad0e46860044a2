//! Minimal JSON parser, scoped to safetensors headers and checkpoint
//! `config.json` files.
//!
//! The grammar is the small recursive-descent dialect that checkpoint loading
//! accepts: objects, arrays, strings with the standard escapes,
//! `true`/`false`/`null`, and numbers. Unknown constructs surface as errors
//! instead of being silently skipped. Two documented tolerances remain: a
//! trailing comma before `]` or `}` is accepted, and integer literals may
//! carry leading zeros.
//!
//! Numbers are kept exact: a non-negative integer that fits in `u64` becomes
//! [`Json::Int`]; every other number (fractions, exponents, negative
//! integers) keeps its literal text in [`Json::Float`], to be converted to a
//! floating-point value by the caller. A negative integer zero (`-0`, `-00`)
//! is an integer, so it reads as `0`: only a float literal carries a sign
//! on zero.
use vstd::prelude::*;
use vstd::utf8::*;

verus! {

/// A JSON value as parsed from a document.
pub enum Json {
    Null,
    Bool(bool),
    Int(u64),
    /// Literal text of a number that is not a `u64` integer (`0` for a
    /// negative integer zero).
    Float(String),
    Str(String),
    Arr(Vec<Json>),
    Obj(Vec<(String, Json)>),
}

/// Mathematical model of a JSON value.
pub enum JsonSpec {
    Null,
    Bool(bool),
    Int(u64),
    Float(Seq<char>),
    Str(Seq<char>),
    Arr(Seq<JsonSpec>),
    Obj(Seq<(Seq<char>, JsonSpec)>),
}

/// The keyword literals of JSON.
#[derive(Debug, Clone, Copy, PartialEq, Eq, Structural)]
pub enum Keyword {
    True,
    False,
    Null,
}

/// Why a document was rejected.
#[derive(Debug, Clone, Copy, PartialEq, Eq, Structural)]
pub enum JsonError {
    UnexpectedEnd,
    UnexpectedByte(u8),
    ExpectedColon,
    ExpectedCommaOrBrace,
    ExpectedKeyOrBrace,
    ExpectedCommaOrBracket,
    InvalidUtf8,
    TruncatedEscape,
    BadHexDigit(u8),
    InvalidCodePoint,
    BadEscape(u8),
    UnterminatedString,
    MalformedNumber,
    BadFloat,
    BadInteger,
    ExpectedLiteral(Keyword),
    TrailingContent(usize),
}

pub open spec fn json_view(j: Json) -> JsonSpec
    decreases j, 1nat,
{
    match j {
        Json::Null => JsonSpec::Null,
        Json::Bool(b) => JsonSpec::Bool(b),
        Json::Int(n) => JsonSpec::Int(n),
        Json::Float(s) => JsonSpec::Float(s@),
        Json::Str(s) => JsonSpec::Str(s@),
        Json::Arr(v) => JsonSpec::Arr(json_seq_view(v@)),
        Json::Obj(v) => JsonSpec::Obj(json_obj_view(v@)),
    }
}

pub open spec fn json_seq_view(s: Seq<Json>) -> Seq<JsonSpec>
    decreases s, 0nat,
{
    if s.len() == 0 {
        Seq::empty()
    } else {
        json_seq_view(s.drop_last()).push(json_view(s.last()))
    }
}

pub open spec fn json_obj_view(s: Seq<(String, Json)>) -> Seq<(Seq<char>, JsonSpec)>
    decreases s, 0nat,
{
    if s.len() == 0 {
        Seq::empty()
    } else {
        json_obj_view(s.drop_last()).push((s.last().0@, json_view(s.last().1)))
    }
}

impl View for Json {
    type V = JsonSpec;

    open spec fn view(&self) -> JsonSpec {
        json_view(*self)
    }
}

// ---------------------------------------------------------------------------
// The grammar
// ---------------------------------------------------------------------------

/// ASCII whitespace as Rust's `u8::is_ascii_whitespace` defines it.
pub open spec fn is_ws(c: u8) -> bool {
    c == 0x20 || c == 0x09 || c == 0x0A || c == 0x0C || c == 0x0D
}

pub open spec fn is_digit(c: u8) -> bool {
    0x30 <= c <= 0x39
}

/// First position at or after `i` that is not whitespace.
pub open spec fn skip_ws(s: Seq<u8>, i: int) -> int
    decreases s.len() - i,
{
    if 0 <= i < s.len() && is_ws(s[i]) {
        skip_ws(s, i + 1)
    } else {
        i
    }
}

/// Value of an ASCII hexadecimal digit.
pub open spec fn hex_value(c: u8) -> Option<u32> {
    if 0x30 <= c <= 0x39 {
        Some((c - 0x30) as u32)
    } else if 0x61 <= c <= 0x66 {
        Some((c - 0x61 + 10) as u32)
    } else if 0x41 <= c <= 0x46 {
        Some((c - 0x41 + 10) as u32)
    } else {
        None
    }
}

/// Reads the `k` hex digits that start at `i`, most significant first,
/// continuing the accumulated value `acc`.
pub open spec fn hex_digits(s: Seq<u8>, i: int, k: nat, acc: u32) -> Result<u32, JsonError>
    decreases k,
{
    if k == 0 {
        Ok(acc)
    } else if !(0 <= i < s.len()) {
        Err(JsonError::TruncatedEscape)
    } else {
        match hex_value(s[i]) {
            None => Err(JsonError::BadHexDigit(s[i])),
            Some(d) => hex_digits(s, i + 1, (k - 1) as nat, #[verifier::truncate] ((acc * 16 + d) as u32)),
        }
    }
}

/// The byte that a one-character escape `\c` stands for.
pub open spec fn simple_escape(c: u8) -> Option<u8> {
    if c == 0x22 {
        Some(0x22u8)
    } else if c == 0x5C {
        Some(0x5Cu8)
    } else if c == 0x2F {
        Some(0x2Fu8)
    } else if c == 0x62 {
        Some(0x08u8)
    } else if c == 0x66 {
        Some(0x0Cu8)
    } else if c == 0x6E {
        Some(0x0Au8)
    } else if c == 0x72 {
        Some(0x0Du8)
    } else if c == 0x74 {
        Some(0x09u8)
    } else {
        None
    }
}

pub open spec fn prepend_bytes(pre: Seq<u8>, r: Result<(Seq<u8>, int), JsonError>) -> Result<
    (Seq<u8>, int),
    JsonError,
> {
    match r {
        Ok((rest, e)) => Ok((pre + rest, e)),
        Err(err) => Err(err),
    }
}

/// The decoded bytes of a string body that starts at `i` (just after the
/// opening quote), and the position just after the closing quote.
pub open spec fn string_body(s: Seq<u8>, i: int) -> Result<(Seq<u8>, int), JsonError>
    decreases s.len() - i,
{
    if !(0 <= i < s.len()) {
        Err(JsonError::UnterminatedString)
    } else if s[i] == 0x22 {
        Ok((Seq::empty(), i + 1))
    } else if s[i] == 0x5C {
        if i + 1 >= s.len() {
            Err(JsonError::UnterminatedString)
        } else {
            let c = s[i + 1];
            match simple_escape(c) {
                Some(b) => prepend_bytes(seq![b], string_body(s, i + 2)),
                None => if c == 0x75 {
                    match hex_digits(s, i + 2, 4, 0) {
                        Err(e) => Err(e),
                        Ok(cp) => if is_scalar(cp) {
                            proof {
                                lemma_hex_digits_end(s, i + 2, 4, 0);
                            }
                            prepend_bytes(encode_scalar(cp), string_body(s, i + 6))
                        } else {
                            Err(JsonError::InvalidCodePoint)
                        },
                    }
                } else {
                    Err(JsonError::BadEscape(c))
                },
            }
        }
    } else {
        prepend_bytes(seq![s[i]], string_body(s, i + 1))
    }
}

/// A string whose body starts at `i`: its characters and the position after
/// the closing quote.
pub open spec fn string_at(s: Seq<u8>, i: int) -> Result<(Seq<char>, int), JsonError> {
    match string_body(s, i) {
        Err(e) => Err(e),
        Ok((bytes, e)) => if valid_utf8(bytes) {
            Ok((decode_utf8(bytes), e))
        } else {
            Err(JsonError::InvalidUtf8)
        },
    }
}

pub open spec fn keyword_bytes(k: Keyword) -> Seq<u8> {
    match k {
        Keyword::True => seq![0x74u8, 0x72, 0x75, 0x65],
        Keyword::False => seq![0x66u8, 0x61, 0x6C, 0x73, 0x65],
        Keyword::Null => seq![0x6Eu8, 0x75, 0x6C, 0x6C],
    }
}

pub open spec fn keyword_value(k: Keyword) -> JsonSpec {
    match k {
        Keyword::True => JsonSpec::Bool(true),
        Keyword::False => JsonSpec::Bool(false),
        Keyword::Null => JsonSpec::Null,
    }
}

pub open spec fn keyword_at(s: Seq<u8>, i: int, k: Keyword) -> Result<(JsonSpec, int), JsonError> {
    let lit = keyword_bytes(k);
    if 0 <= i && i + lit.len() <= s.len() && s.subrange(i, i + lit.len()) == lit {
        Ok((keyword_value(k), i + lit.len()))
    } else {
        Err(JsonError::ExpectedLiteral(k))
    }
}

/// End of the number token that starts at `i`: the run of sign, digit,
/// `.` and exponent bytes (a sign is taken right after an exponent marker).
pub open spec fn number_end(s: Seq<u8>, i: int) -> int
    decreases s.len() - i,
{
    if !(0 <= i < s.len()) {
        i
    } else {
        let c = s[i];
        if c == 0x2D || is_digit(c) || c == 0x2E {
            number_end(s, i + 1)
        } else if c == 0x65 || c == 0x45 {
            if i + 1 < s.len() && (s[i + 1] == 0x2B || s[i + 1] == 0x2D) {
                number_end(s, i + 2)
            } else {
                number_end(s, i + 1)
            }
        } else {
            i
        }
    }
}

/// End of the run of decimal digits that starts at `i`.
pub open spec fn digit_run_end(t: Seq<u8>, i: int) -> int
    decreases t.len() - i,
{
    if 0 <= i < t.len() && is_digit(t[i]) {
        digit_run_end(t, i + 1)
    } else {
        i
    }
}

pub open spec fn has_float_marker(t: Seq<u8>) -> bool {
    exists|k: int| 0 <= k < t.len() && (t[k] == 0x2E || t[k] == 0x65 || t[k] == 0x45)
}

pub open spec fn all_digits(t: Seq<u8>) -> bool {
    forall|k: int| 0 <= k < t.len() ==> is_digit(#[trigger] t[k])
}

/// Decimal value of a digit string.
pub open spec fn decimal_value(t: Seq<u8>) -> nat
    decreases t.len(),
{
    if t.len() == 0 {
        0
    } else {
        decimal_value(t.drop_last()) * 10 + (t.last() - 0x30) as nat
    }
}

/// Rust's decimal floating-point literal syntax, as `f64::from_str`
/// documents it (`Sign? (Digit+ | Digit+ '.' Digit* | Digit* '.' Digit+) Exp?`,
/// `Exp = ('e' | 'E') Sign? Digit+`), restricted to the bytes a number token
/// can hold.
pub open spec fn float_syntax(t: Seq<u8>) -> bool {
    let a: int = if t.len() > 0 && (t[0] == 0x2D || t[0] == 0x2B) { 1 } else { 0 };
    let b = digit_run_end(t, a);
    let has_point = b < t.len() && t[b] == 0x2E;
    let c = if has_point { digit_run_end(t, b + 1) } else { b };
    let mantissa_digits = if has_point { (b - a) + (c - (b + 1)) } else { b - a };
    &&& mantissa_digits > 0
    &&& (c == t.len() || (c < t.len() && (t[c] == 0x65 || t[c] == 0x45) && {
        let d = if c + 1 < t.len() && (t[c + 1] == 0x2B || t[c + 1] == 0x2D) {
            c + 2
        } else {
            c + 1
        };
        let f = digit_run_end(t, d);
        f > d && f == t.len()
    }))
}

/// The number token at `i`.
pub open spec fn number_at(s: Seq<u8>, i: int) -> Result<(JsonSpec, int), JsonError> {
    let e = number_end(s, i);
    let t = s.subrange(i, e);
    if t.len() == 0 || t =~= seq![0x2Du8] {
        Err(JsonError::MalformedNumber)
    } else if has_float_marker(t) {
        if float_syntax(t) {
            Ok((JsonSpec::Float(decode_utf8(t)), e))
        } else {
            Err(JsonError::BadFloat)
        }
    } else if all_digits(t) && decimal_value(t) <= u64::MAX {
        Ok((JsonSpec::Int(decimal_value(t) as u64), e))
    } else if t[0] == 0x2D && all_digits(t.drop_first()) && decimal_value(t.drop_first()) <= 0x8000_0000_0000_0000 {
        // A negative integer is kept as the number it reads as: `-0` is zero.
        if decimal_value(t.drop_first()) == 0 {
            Ok((JsonSpec::Float("0"@), e))
        } else {
            Ok((JsonSpec::Float(decode_utf8(t)), e))
        }
    } else {
        Err(JsonError::BadInteger)
    }
}

/// The value that starts at `i` (after optional whitespace) and the position
/// just after it.
pub open spec fn value_at(s: Seq<u8>, i: int) -> Result<(JsonSpec, int), JsonError>
    decreases s.len() - i, 0nat,
{
    let j = skip_ws(s, i);
    if !(0 <= i && j < s.len()) {
        Err(JsonError::UnexpectedEnd)
    } else {
        proof {
            lemma_skip_ws_bounds(s, i);
        }
        let c = s[j];
        if c == 0x7B {
            match members_at(s, j + 1) {
                Ok((m, e)) => Ok((JsonSpec::Obj(m), e)),
                Err(err) => Err(err),
            }
        } else if c == 0x5B {
            match items_at(s, j + 1) {
                Ok((m, e)) => Ok((JsonSpec::Arr(m), e)),
                Err(err) => Err(err),
            }
        } else if c == 0x22 {
            match string_at(s, j + 1) {
                Ok((m, e)) => Ok((JsonSpec::Str(m), e)),
                Err(err) => Err(err),
            }
        } else if c == 0x74 {
            keyword_at(s, j, Keyword::True)
        } else if c == 0x66 {
            keyword_at(s, j, Keyword::False)
        } else if c == 0x6E {
            keyword_at(s, j, Keyword::Null)
        } else if c == 0x2D || is_digit(c) {
            number_at(s, j)
        } else {
            Err(JsonError::UnexpectedByte(c))
        }
    }
}

/// The elements of an array whose contents start at `i` (just after `[` or
/// after a separating comma), and the position just after the closing `]`.
pub open spec fn items_at(s: Seq<u8>, i: int) -> Result<(Seq<JsonSpec>, int), JsonError>
    decreases s.len() - i, 1nat,
{
    let j = skip_ws(s, i);
    if !(0 <= i <= s.len()) {
        Err(JsonError::UnexpectedEnd)
    } else if j < s.len() && s[j] == 0x5D {
        Ok((Seq::empty(), j + 1))
    } else {
        proof {
            lemma_skip_ws_bounds(s, i);
        }
        match value_at(s, j) {
            Err(err) => Err(err),
            Ok((v, m)) => {
                let k = skip_ws(s, m);
                if k < s.len() && s[k] == 0x2C {
                    if k + 1 <= i {
                        Err(JsonError::UnexpectedEnd)
                    } else {
                        match items_at(s, k + 1) {
                            Ok((rest, e)) => Ok((seq![v] + rest, e)),
                            Err(err) => Err(err),
                        }
                    }
                } else if k < s.len() && s[k] == 0x5D {
                    Ok((seq![v], k + 1))
                } else {
                    Err(JsonError::ExpectedCommaOrBracket)
                }
            },
        }
    }
}

/// The members of an object whose contents start at `i` (just after `{` or
/// after a separating comma), and the position just after the closing `}`.
pub open spec fn members_at(s: Seq<u8>, i: int) -> Result<(Seq<(Seq<char>, JsonSpec)>, int), JsonError>
    decreases s.len() - i, 1nat,
{
    let j = skip_ws(s, i);
    if !(0 <= i <= s.len()) {
        Err(JsonError::UnexpectedEnd)
    } else if j < s.len() && s[j] == 0x7D {
        Ok((Seq::empty(), j + 1))
    } else if j < s.len() && s[j] == 0x22 {
        proof {
            lemma_skip_ws_bounds(s, i);
            lemma_string_body_end(s, j + 1);
        }
        match string_at(s, j + 1) {
            Err(err) => Err(err),
            Ok((key, k)) => {
                let k2 = skip_ws(s, k);
                proof {
                    lemma_skip_ws_bounds(s, k);
                }
                if !(k2 < s.len() && s[k2] == 0x3A) {
                    Err(JsonError::ExpectedColon)
                } else {
                    match value_at(s, k2 + 1) {
                        Err(err) => Err(err),
                        Ok((v, m)) => {
                            let m2 = skip_ws(s, m);
                            if m2 < s.len() && s[m2] == 0x2C {
                                if m2 + 1 <= i {
                                    Err(JsonError::UnexpectedEnd)
                                } else {
                                    match members_at(s, m2 + 1) {
                                        Ok((rest, e)) => Ok((seq![(key, v)] + rest, e)),
                                        Err(err) => Err(err),
                                    }
                                }
                            } else if m2 < s.len() && s[m2] == 0x7D {
                                Ok((seq![(key, v)], m2 + 1))
                            } else {
                                Err(JsonError::ExpectedCommaOrBrace)
                            }
                        },
                    }
                }
            },
        }
    } else {
        Err(JsonError::ExpectedKeyOrBrace)
    }
}

/// A complete document: one value, then nothing but whitespace.
pub open spec fn document(s: Seq<u8>) -> Result<JsonSpec, JsonError> {
    match value_at(s, 0) {
        Err(err) => Err(err),
        Ok((v, e)) => {
            let t = skip_ws(s, e);
            if t == s.len() {
                Ok(v)
            } else {
                Err(JsonError::TrailingContent(t as usize))
            }
        },
    }
}

// ---------------------------------------------------------------------------
// Lemmas about the grammar
// ---------------------------------------------------------------------------

/// Skipping whitespace stays in bounds, is idempotent and stops at a
/// non-space byte.
pub proof fn lemma_skip_ws_bounds(s: Seq<u8>, i: int)
    requires
        0 <= i <= s.len(),
    ensures
        i <= skip_ws(s, i) <= s.len(),
        skip_ws(s, skip_ws(s, i)) == skip_ws(s, i),
        skip_ws(s, i) < s.len() ==> !is_ws(s[skip_ws(s, i)]),
    decreases s.len() - i,
{
    if i < s.len() && is_ws(s[i]) {
        lemma_skip_ws_bounds(s, i + 1);
    }
}

/// `k` hex digits read from `i` lie inside the input.
pub proof fn lemma_hex_digits_end(s: Seq<u8>, i: int, k: nat, acc: u32)
    ensures
        hex_digits(s, i, k, acc) is Ok && k > 0 ==> 0 <= i && i + k <= s.len(),
    decreases k,
{
    if k > 0 && 0 <= i < s.len() {
        if let Some(d) = hex_value(s[i]) {
            lemma_hex_digits_end(s, i + 1, (k - 1) as nat, #[verifier::truncate] ((acc * 16 + d) as u32));
        }
    }
}

/// A string body read from `i` ends after `i`, inside the input.
pub proof fn lemma_string_body_end(s: Seq<u8>, i: int)
    ensures
        string_body(s, i) matches Ok((_, e)) ==> i < e <= s.len(),
    decreases s.len() - i,
{
    if 0 <= i < s.len() && s[i] != 0x22 {
        if s[i] == 0x5C {
            if i + 1 < s.len() {
                lemma_string_body_end(s, i + 2);
                lemma_hex_digits_end(s, i + 2, 4, 0);
                if hex_digits(s, i + 2, 4, 0) is Ok {
                    lemma_string_body_end(s, i + 6);
                }
            }
        } else {
            lemma_string_body_end(s, i + 1);
        }
    }
}

pub(crate) proof fn lemma_number_end(s: Seq<u8>, i: int)
    requires
        0 <= i <= s.len(),
    ensures
        i <= number_end(s, i) <= s.len(),
    decreases s.len() - i,
{
    if i < s.len() {
        let c = s[i];
        if c == 0x2D || is_digit(c) || c == 0x2E {
            lemma_number_end(s, i + 1);
        } else if c == 0x65 || c == 0x45 {
            if i + 1 < s.len() && (s[i + 1] == 0x2B || s[i + 1] == 0x2D) {
                lemma_number_end(s, i + 2);
            } else {
                lemma_number_end(s, i + 1);
            }
        }
    }
}

/// Every successful value, array body and object body consumes input.
pub(crate) proof fn lemma_value_end(s: Seq<u8>, i: int)
    ensures
        value_at(s, i) matches Ok((_, e)) ==> i < e <= s.len(),
    decreases s.len() - i, 0nat,
{
    let j = skip_ws(s, i);
    if 0 <= i && j < s.len() {
        lemma_skip_ws_bounds(s, i);
        let c = s[j];
        if c == 0x7B {
            lemma_members_end(s, j + 1);
        } else if c == 0x5B {
            lemma_items_end(s, j + 1);
        } else if c == 0x22 {
            lemma_string_body_end(s, j + 1);
        } else if c == 0x2D || is_digit(c) {
            lemma_number_end(s, j);
        }
    }
}

pub(crate) proof fn lemma_items_end(s: Seq<u8>, i: int)
    ensures
        items_at(s, i) matches Ok((_, e)) ==> i < e <= s.len(),
    decreases s.len() - i, 1nat,
{
    let j = skip_ws(s, i);
    if 0 <= i <= s.len() {
        lemma_skip_ws_bounds(s, i);
        if !(j < s.len() && s[j] == 0x5D) {
            lemma_value_end(s, j);
            if let Ok((v, m)) = value_at(s, j) {
                lemma_skip_ws_bounds(s, m);
                let k = skip_ws(s, m);
                if k < s.len() && s[k] == 0x2C && k + 1 > i {
                    lemma_items_end(s, k + 1);
                }
            }
        }
    }
}

pub(crate) proof fn lemma_members_end(s: Seq<u8>, i: int)
    ensures
        members_at(s, i) matches Ok((_, e)) ==> i < e <= s.len(),
    decreases s.len() - i, 1nat,
{
    let j = skip_ws(s, i);
    if 0 <= i <= s.len() {
        lemma_skip_ws_bounds(s, i);
        if j < s.len() && s[j] == 0x22 {
            lemma_string_body_end(s, j + 1);
            if let Ok((key, k)) = string_at(s, j + 1) {
                lemma_skip_ws_bounds(s, k);
                let k2 = skip_ws(s, k);
                if k2 < s.len() && s[k2] == 0x3A {
                    lemma_value_end(s, k2 + 1);
                    if let Ok((v, m)) = value_at(s, k2 + 1) {
                        lemma_skip_ws_bounds(s, m);
                        let m2 = skip_ws(s, m);
                        if m2 < s.len() && s[m2] == 0x2C && m2 + 1 > i {
                            lemma_members_end(s, m2 + 1);
                        }
                    }
                }
            }
        }
    }
}


pub(crate) proof fn lemma_number_bytes(s: Seq<u8>, i: int)
    requires
        0 <= i <= s.len(),
    ensures
        forall|k: int| i <= k < number_end(s, i) ==> #[trigger] s[k] < 0x80,
    decreases s.len() - i,
{
    if i < s.len() {
        let c = s[i];
        if c == 0x2D || is_digit(c) || c == 0x2E {
            lemma_number_bytes(s, i + 1);
        } else if c == 0x65 || c == 0x45 {
            if i + 1 < s.len() && (s[i + 1] == 0x2B || s[i + 1] == 0x2D) {
                lemma_number_bytes(s, i + 2);
            } else {
                lemma_number_bytes(s, i + 1);
            }
        }
    }
}

/// Bytes below 0x80 are valid UTF-8, one character each.
pub(crate) proof fn lemma_ascii_valid_utf8(t: Seq<u8>)
    requires
        forall|k: int| 0 <= k < t.len() ==> #[trigger] t[k] < 0x80,
    ensures
        valid_utf8(t),
    decreases t.len(),
{
    if t.len() > 0 {
        let b = t[0];
        assert(b < 0x80);
        assert(((b & 0x7F) as u32) == (b as u32)) by (bit_vector)
            requires
                b < 0x80,
        ;
        assert(is_leading_byte_width_1(b));
        assert(valid_first_scalar(t));
        let rest = pop_first_scalar(t);
        assert(rest =~= t.subrange(1, t.len() as int));
        assert forall|k: int| 0 <= k < rest.len() implies #[trigger] rest[k] < 0x80 by {
            assert(rest[k] == t[k + 1]);
        }
        lemma_ascii_valid_utf8(rest);
    }
}

pub open spec fn prepend_items(
    pre: Seq<JsonSpec>,
    r: Result<(Seq<JsonSpec>, int), JsonError>,
) -> Result<(Seq<JsonSpec>, int), JsonError> {
    match r {
        Ok((rest, e)) => Ok((pre + rest, e)),
        Err(err) => Err(err),
    }
}

pub open spec fn prepend_members(
    pre: Seq<(Seq<char>, JsonSpec)>,
    r: Result<(Seq<(Seq<char>, JsonSpec)>, int), JsonError>,
) -> Result<(Seq<(Seq<char>, JsonSpec)>, int), JsonError> {
    match r {
        Ok((rest, e)) => Ok((pre + rest, e)),
        Err(err) => Err(err),
    }
}

// ---------------------------------------------------------------------------
// std
// ---------------------------------------------------------------------------

/// `String::from_utf8`: succeeds exactly on valid UTF-8, and the string holds
/// the decoded characters.
#[verifier::external_body]
pub(crate) fn string_from_utf8(bytes: Vec<u8>) -> (res: Option<String>)
    ensures
        res is Some <==> valid_utf8(bytes@),
        res matches Some(s) ==> s@ == decode_utf8(bytes@),
{
    String::from_utf8(bytes).ok()
}

// ---------------------------------------------------------------------------
// The parser
// ---------------------------------------------------------------------------

fn is_ws_byte(c: u8) -> (r: bool)
    ensures
        r == is_ws(c),
{
    c == 0x20 || c == 0x09 || c == 0x0A || c == 0x0C || c == 0x0D
}

fn hex_val(c: u8) -> (r: Option<u32>)
    ensures
        r == hex_value(c),
{
    if 0x30 <= c && c <= 0x39 {
        Some((c - 0x30) as u32)
    } else if 0x61 <= c && c <= 0x66 {
        Some((c - 0x61 + 10) as u32)
    } else if 0x41 <= c && c <= 0x46 {
        Some((c - 0x41 + 10) as u32)
    } else {
        None
    }
}

fn escape_byte(c: u8) -> (r: Option<u8>)
    ensures
        r == simple_escape(c),
{
    if c == 0x22 {
        Some(0x22u8)
    } else if c == 0x5C {
        Some(0x5Cu8)
    } else if c == 0x2F {
        Some(0x2Fu8)
    } else if c == 0x62 {
        Some(0x08u8)
    } else if c == 0x66 {
        Some(0x0Cu8)
    } else if c == 0x6E {
        Some(0x0Au8)
    } else if c == 0x72 {
        Some(0x0Du8)
    } else if c == 0x74 {
        Some(0x09u8)
    } else {
        None
    }
}

/// Appends the UTF-8 encoding of a scalar value.
fn push_scalar(out: &mut Vec<u8>, cp: u32)
    requires
        is_scalar(cp),
    ensures
        final(out)@ == old(out)@ + encode_scalar(cp),
{
    if cp <= 0x7F {
        out.push((cp & 0x7F) as u8);
    } else if cp <= 0x7FF {
        out.push(0xC0 | ((cp >> 6) & 0x1F) as u8);
        out.push(0x80 | (cp & 0x3F) as u8);
    } else if cp <= 0xFFFF {
        out.push(0xE0 | ((cp >> 12) & 0x0F) as u8);
        out.push(0x80 | ((cp >> 6) & 0x3F) as u8);
        out.push(0x80 | (cp & 0x3F) as u8);
    } else {
        out.push(0xF0 | ((cp >> 18) & 0x7) as u8);
        out.push(0x80 | ((cp >> 12) & 0x3F) as u8);
        out.push(0x80 | ((cp >> 6) & 0x3F) as u8);
        out.push(0x80 | (cp & 0x3F) as u8);
    }
    assert(final(out)@ =~= old(out)@ + encode_scalar(cp));
}

fn copy_range(b: &[u8], start: usize, end: usize) -> (r: Vec<u8>)
    requires
        start <= end <= b@.len(),
    ensures
        r@ == b@.subrange(start as int, end as int),
{
    let mut out: Vec<u8> = Vec::new();
    let mut k = start;
    while k < end
        invariant
            start <= k <= end <= b@.len(),
            out@ == b@.subrange(start as int, k as int),
        decreases end - k,
    {
        out.push(b[k]);
        k = k + 1;
        assert(out@ =~= b@.subrange(start as int, k as int));
    }
    out
}

/// End of the run of decimal digits of `t` that starts at `i`.
fn digit_run(t: &Vec<u8>, i: usize) -> (r: usize)
    requires
        i <= t@.len(),
    ensures
        r == digit_run_end(t@, i as int),
        i <= r <= t@.len(),
{
    let mut k = i;
    while k < t.len() && 0x30 <= t[k] && t[k] <= 0x39
        invariant
            i <= k <= t@.len(),
            digit_run_end(t@, i as int) == digit_run_end(t@, k as int),
        decreases t@.len() - k,
    {
        k = k + 1;
    }
    k
}

/// Decides `float_syntax`.
fn check_float_syntax(t: &Vec<u8>) -> (r: bool)
    ensures
        r == float_syntax(t@),
{
    let a: usize = if t.len() > 0 && (t[0] == 0x2D || t[0] == 0x2B) { 1 } else { 0 };
    let b = digit_run(t, a);
    let has_point = b < t.len() && t[b] == 0x2E;
    let c = if has_point { digit_run(t, b + 1) } else { b };
    let mantissa_digits = if has_point { (b - a) + (c - (b + 1)) } else { b - a };
    if mantissa_digits == 0 {
        return false;
    }
    if c == t.len() {
        return true;
    }
    if !(t[c] == 0x65 || t[c] == 0x45) {
        return false;
    }
    let d = if c + 1 < t.len() && (t[c + 1] == 0x2B || t[c + 1] == 0x2D) { c + 2 } else { c + 1 };
    let f = digit_run(t, d);
    f > d && f == t.len()
}

/// Parses the decimal digits `t[from..]` as a `u64`.
fn parse_u64_digits(t: &Vec<u8>, from: usize) -> (r: Option<u64>)
    requires
        from <= t@.len(),
    ensures
        ({
            let d = t@.subrange(from as int, t@.len() as int);
            r == if all_digits(d) && decimal_value(d) <= u64::MAX {
                Some(decimal_value(d) as u64)
            } else {
                None::<u64>
            }
        }),
{
    let ghost full = t@.subrange(from as int, t@.len() as int);
    let mut acc: u64 = 0;
    let mut k = from;
    while k < t.len()
        invariant
            from <= k <= t@.len(),
            full == t@.subrange(from as int, t@.len() as int),
            all_digits(t@.subrange(from as int, k as int)),
            acc as nat == decimal_value(t@.subrange(from as int, k as int)),
        decreases t@.len() - k,
    {
        let c = t[k];
        let ghost prev = t@.subrange(from as int, k as int);
        let ghost next = t@.subrange(from as int, k + 1);
        assert(next.drop_last() =~= prev);
        assert(next.last() == c);
        if !(0x30 <= c && c <= 0x39) {
            assert(!all_digits(full)) by {
                assert(full[k - from] == c);
            }
            return None;
        }
        let m = acc.checked_mul(10);
        match m {
            None => {
                proof {
                    assert(decimal_value(next) == acc * 10 + (c - 0x30) as nat);
                    if all_digits(full) {
                        lemma_decimal_prefix_bound(full, (k + 1 - from) as int);
                        assert(full.subrange(0, (k + 1 - from) as int) =~= next);
                    }
                }
                return None;
            },
            Some(m) => {
                let s = m.checked_add((c - 0x30) as u64);
                match s {
                    None => {
                        proof {
                            assert(decimal_value(next) == m + (c - 0x30) as nat);
                            if all_digits(full) {
                                lemma_decimal_prefix_bound(full, (k + 1 - from) as int);
                                assert(full.subrange(0, (k + 1 - from) as int) =~= next);
                            }
                        }
                        return None;
                    },
                    Some(s) => {
                        acc = s;
                    },
                }
            },
        }
        k = k + 1;
        assert(all_digits(t@.subrange(from as int, k as int))) by {
            assert forall|q: int| 0 <= q < next.len() implies is_digit(#[trigger] next[q]) by {
                if q < prev.len() {
                    assert(next[q] == prev[q]);
                }
            }
        }
    }
    assert(t@.subrange(from as int, k as int) =~= full);
    Some(acc)
}

/// A digit string is worth at least as much as any of its prefixes.
pub(crate) proof fn lemma_decimal_prefix_bound(t: Seq<u8>, n: int)
    requires
        0 <= n <= t.len(),
        all_digits(t),
    ensures
        decimal_value(t.subrange(0, n)) <= decimal_value(t),
    decreases t.len(),
{
    if n < t.len() {
        assert(t.drop_last() =~= t.subrange(0, t.len() - 1));
        assert(all_digits(t.drop_last())) by {
            assert forall|q: int| 0 <= q < t.drop_last().len() implies is_digit(#[trigger] t.drop_last()[q]) by {
                assert(t.drop_last()[q] == t[q]);
            }
        }
        lemma_decimal_prefix_bound(t.drop_last(), n);
        assert(t.drop_last().subrange(0, n) =~= t.subrange(0, n));
    } else {
        assert(t.subrange(0, n) =~= t);
    }
}

struct Parser<'a> {
    b: &'a [u8],
    i: usize,
}

impl<'a> Parser<'a> {
    spec fn wf(&self) -> bool {
        self.i <= self.b@.len() <= usize::MAX
    }

    fn peek(&self) -> (r: Option<u8>)
        ensures
            r == (if self.i < self.b@.len() {
                Some(self.b@[self.i as int])
            } else {
                None::<u8>
            }),
    {
        if self.i < self.b.len() {
            Some(self.b[self.i])
        } else {
            None
        }
    }

    fn bump(&mut self) -> (r: Option<u8>)
        requires
            old(self).wf(),
        ensures
            final(self).b == old(self).b,
            final(self).wf(),
            r == (if old(self).i < old(self).b@.len() {
                Some(old(self).b@[old(self).i as int])
            } else {
                None::<u8>
            }),
            final(self).i == (if r is Some {
                old(self).i + 1
            } else {
                old(self).i as int
            }),
    {
        if self.i < self.b.len() {
            let c = self.b[self.i];
            self.i = self.i + 1;
            Some(c)
        } else {
            None
        }
    }

    fn skip_ws(&mut self)
        requires
            old(self).wf(),
        ensures
            final(self).b == old(self).b,
            final(self).wf(),
            final(self).i == skip_ws(old(self).b@, old(self).i as int),
    {
        let ghost s = self.b@;
        let ghost i0 = self.i as int;
        while self.i < self.b.len() && is_ws_byte(self.b[self.i])
            invariant
                self.b@ == s,
                self.b == old(self).b,
                i0 <= self.i <= s.len() <= usize::MAX,
                skip_ws(s, i0) == skip_ws(s, self.i as int),
            decreases s.len() - self.i,
        {
            self.i = self.i + 1;
        }
    }

    fn expect_literal(&mut self, k: Keyword) -> (r: Result<Json, JsonError>)
        requires
            old(self).wf(),
        ensures
            final(self).b == old(self).b,
            final(self).wf(),
            match keyword_at(old(self).b@, old(self).i as int, k) {
                Ok((v, e)) => r matches Ok(j) && j@ == v && final(self).i == e,
                Err(err) => r == Err::<Json, JsonError>(err),
            },
            r is Err ==> final(self).i == old(self).i,
    {
        let lit: Vec<u8> = match k {
            Keyword::True => vec![0x74u8, 0x72, 0x75, 0x65],
            Keyword::False => vec![0x66u8, 0x61, 0x6C, 0x73, 0x65],
            Keyword::Null => vec![0x6Eu8, 0x75, 0x6C, 0x6C],
        };
        assert(lit@ =~= keyword_bytes(k));
        let ghost s = self.b@;
        let i = self.i;
        if self.b.len() - i < lit.len() {
            return Err(JsonError::ExpectedLiteral(k));
        }
        let blen = self.b.len();
        let mut q: usize = 0;
        while q < lit.len()
            invariant
                blen == s.len(),
                q <= lit@.len(),
                i + lit@.len() <= s.len(),
                self.b@ == s,
                s == old(self).b@,
                self.i == i,
                i == old(self).i,
                lit@ == keyword_bytes(k),
                forall|r: int| 0 <= r < q ==> s[i + r] == lit@[r],
            decreases lit@.len() - q,
        {
            if self.b[i + q] != lit[q] {
                assert(s.subrange(i as int, i + lit@.len())[q as int] != lit@[q as int]);
                return Err(JsonError::ExpectedLiteral(k));
            }
            q = q + 1;
        }
        assert(s.subrange(i as int, i + lit@.len()) =~= lit@);
        self.i = i + lit.len();
        match k {
            Keyword::True => Ok(Json::Bool(true)),
            Keyword::False => Ok(Json::Bool(false)),
            Keyword::Null => Ok(Json::Null),
        }
    }

    /// Parses a string whose opening quote has already been consumed.
    fn parse_string(&mut self) -> (r: Result<String, JsonError>)
        requires
            old(self).wf(),
        ensures
            final(self).b == old(self).b,
            final(self).wf(),
            match string_at(old(self).b@, old(self).i as int) {
                Ok((cs, e)) => r matches Ok(st) && st@ == cs && final(self).i == e,
                Err(err) => r == Err::<String, JsonError>(err),
            },
    {
        let ghost s = self.b@;
        let ghost i0 = self.i as int;
        let mut out: Vec<u8> = Vec::new();
        loop
            invariant
                self.b@ == s,
                self.b == old(self).b,
                s == old(self).b@,
                i0 == old(self).i,
                i0 <= self.i <= s.len() <= usize::MAX,
                string_body(s, i0) == prepend_bytes(out@, string_body(s, self.i as int)),
            decreases s.len() - self.i,
        {
            let ghost cur = self.i as int;
            match self.bump() {
                Some(c) => {
                    if c == 0x22 {
                        assert(out@ + Seq::<u8>::empty() =~= out@);
                        let st = string_from_utf8(out);
                        match st {
                            Some(st) => {
                                return Ok(st);
                            },
                            None => {
                                return Err(JsonError::InvalidUtf8);
                            },
                        }
                    } else if c == 0x5C {
                        match self.bump() {
                            None => {
                                return Err(JsonError::UnterminatedString);
                            },
                            Some(e) => {
                                match escape_byte(e) {
                                    Some(byte) => {
                                        let ghost before = out@;
                                        out.push(byte);
                                        assert(string_body(s, cur) == prepend_bytes(seq![byte], string_body(s, cur + 2)));
                                        assert(before + seq![byte] =~= out@);
                                        proof {
                                            lemma_prepend_bytes_assoc(before, seq![byte], string_body(s, cur + 2));
                                        }
                                    },
                                    None => {
                                        if e != 0x75 {
                                            return Err(JsonError::BadEscape(e));
                                        }
                                        let mut cp: u32 = 0;
                                        let mut k: usize = 0;
                                        while k < 4
                                            invariant
                                                self.b@ == s,
                                                self.b == old(self).b,
                                                s == old(self).b@,
                                                i0 == old(self).i,
                                                cur + 1 < s.len(),
                                                s[cur] == 0x5C,
                                                s[cur + 1] == 0x75,
                                                i0 <= cur,
                                                string_body(s, i0) == prepend_bytes(out@, string_body(s, cur)),
                                                k <= 4,
                                                self.i == cur + 2 + k,
                                                self.i <= s.len() <= usize::MAX,
                                                cp < 0x10000,
                                                k == 0 ==> cp == 0,
                                                cp < pow16(k as nat),
                                                hex_digits(s, cur + 2, 4, 0) == hex_digits(s, self.i as int, (4 - k) as nat, cp),
                                            decreases 4 - k,
                                        {
                                            match self.bump() {
                                                None => {
                                                    return Err(JsonError::TruncatedEscape);
                                                },
                                                Some(h) => {
                                                    match hex_val(h) {
                                                        None => {
                                                            return Err(JsonError::BadHexDigit(h));
                                                        },
                                                        Some(d) => {
                                                            proof {
                                                                lemma_pow16_step(k as nat, cp, d);
                                                            }
                                                            cp = cp * 16 + d;
                                                        },
                                                    }
                                                },
                                            }
                                            k = k + 1;
                                        }
                                        if !((cp <= 0xD7FF) || (0xE000 <= cp && cp <= 0x10FFFF)) {
                                            return Err(JsonError::InvalidCodePoint);
                                        }
                                        proof {
                                            lemma_hex_digits_end(s, cur + 2, 4, 0);
                                        }
                                        let ghost before = out@;
                                        push_scalar(&mut out, cp);
                                        assert(hex_digits(s, cur + 2, 4, 0) == Ok::<u32, JsonError>(cp));
                                        assert(string_body(s, cur) == prepend_bytes(encode_scalar(cp), string_body(s, cur + 6)));
                                        proof {
                                            lemma_prepend_bytes_assoc(before, encode_scalar(cp), string_body(s, cur + 6));
                                        }
                                    },
                                }
                            },
                        }
                    } else {
                        let ghost before = out@;
                        out.push(c);
                        assert(string_body(s, cur) == prepend_bytes(seq![c], string_body(s, cur + 1)));
                        assert(before + seq![c] =~= out@);
                        proof {
                            lemma_prepend_bytes_assoc(before, seq![c], string_body(s, cur + 1));
                        }
                    }
                },
                None => {
                    return Err(JsonError::UnterminatedString);
                },
            }
        }
    }
}

impl<'a> Parser<'a> {
    fn parse_number(&mut self) -> (r: Result<Json, JsonError>)
        requires
            old(self).wf(),
        ensures
            final(self).b == old(self).b,
            final(self).wf(),
            match number_at(old(self).b@, old(self).i as int) {
                Ok((v, e)) => r matches Ok(j) && j@ == v && final(self).i == e,
                Err(err) => r == Err::<Json, JsonError>(err),
            },
    {
        let ghost s = self.b@;
        let start = self.i;
        let mut is_float = false;
        proof {
            lemma_number_end(s, start as int);
            lemma_number_bytes(s, start as int);
        }
        loop
            invariant
                self.b@ == s,
                self.b == old(self).b,
                s == old(self).b@,
                start == old(self).i,
                start <= self.i <= s.len(),
                number_end(s, start as int) == number_end(s, self.i as int),
                is_float == has_float_marker(s.subrange(start as int, self.i as int)),
            ensures
                self.b@ == s,
                self.b == old(self).b,
                start <= self.i <= s.len(),
                self.i == number_end(s, start as int),
                is_float == has_float_marker(s.subrange(start as int, self.i as int)),
            decreases s.len() - self.i,
        {
            if self.i >= self.b.len() {
                break;
            }
            let c = self.b[self.i];
            let ghost before = s.subrange(start as int, self.i as int);
            if c == 0x2D || (0x30 <= c && c <= 0x39) {
                self.i = self.i + 1;
                proof {
                    lemma_marker_push(before, c);
                    assert(s.subrange(start as int, self.i as int) =~= before.push(c));
                }
            } else if c == 0x2E {
                is_float = true;
                self.i = self.i + 1;
                proof {
                    lemma_marker_push(before, c);
                    assert(s.subrange(start as int, self.i as int) =~= before.push(c));
                }
            } else if c == 0x65 || c == 0x45 {
                is_float = true;
                self.i = self.i + 1;
                proof {
                    lemma_marker_push(before, c);
                    assert(s.subrange(start as int, self.i as int) =~= before.push(c));
                }
                if self.i < self.b.len() && (self.b[self.i] == 0x2B || self.b[self.i] == 0x2D) {
                    let ghost mid = s.subrange(start as int, self.i as int);
                    let d = self.b[self.i];
                    self.i = self.i + 1;
                    proof {
                        lemma_marker_push(mid, d);
                        assert(s.subrange(start as int, self.i as int) =~= mid.push(d));
                    }
                }
            } else {
                break;
            }
        }
        let end = self.i;
        let t = copy_range(self.b, start, end);
        if t.len() == 0 || (t.len() == 1 && t[0] == 0x2D) {
            assert(t@.len() == 0 || t@ =~= seq![0x2Du8]);
            return Err(JsonError::MalformedNumber);
        }
        assert(!(t@ =~= seq![0x2Du8]));
        assert forall|k: int| 0 <= k < t@.len() implies #[trigger] t@[k] < 0x80 by {
            assert(t@[k] == s[start + k]);
        }
        if is_float {
            if !check_float_syntax(&t) {
                return Err(JsonError::BadFloat);
            }
            proof {
                lemma_ascii_valid_utf8(t@);
            }
            let text = string_from_utf8(t);
            return match text {
                Some(text) => Ok(Json::Float(text)),
                None => Err(JsonError::BadFloat),
            };
        }
        assert(t@.subrange(0, t@.len() as int) =~= t@);
        match parse_u64_digits(&t, 0) {
            Some(v) => Ok(Json::Int(v)),
            None => {
                if t[0] == 0x2D {
                    assert(t@.subrange(1, t@.len() as int) =~= t@.drop_first());
                    match parse_u64_digits(&t, 1) {
                        Some(v) => {
                            if v == 0 {
                                proof {
                                    reveal_strlit("0");
                                }
                                Ok(Json::Float("0".to_owned()))
                            } else if v <= 0x8000_0000_0000_0000 {
                                proof {
                                    lemma_ascii_valid_utf8(t@);
                                }
                                let text = string_from_utf8(t);
                                match text {
                                    Some(text) => Ok(Json::Float(text)),
                                    None => Err(JsonError::BadInteger),
                                }
                            } else {
                                Err(JsonError::BadInteger)
                            }
                        },
                        None => Err(JsonError::BadInteger),
                    }
                } else {
                    Err(JsonError::BadInteger)
                }
            },
        }
    }

    fn parse_value(&mut self) -> (r: Result<Json, JsonError>)
        requires
            old(self).wf(),
        ensures
            final(self).b == old(self).b,
            final(self).wf(),
            match value_at(old(self).b@, old(self).i as int) {
                Ok((v, e)) => r matches Ok(j) && j@ == v && final(self).i == e,
                Err(err) => r == Err::<Json, JsonError>(err),
            },
        decreases old(self).b@.len() - old(self).i, 0nat,
    {
        let ghost s = self.b@;
        let ghost i0 = self.i as int;
        proof {
            lemma_skip_ws_bounds(s, i0);
        }
        self.skip_ws();
        match self.peek() {
            None => Err(JsonError::UnexpectedEnd),
            Some(c) => {
                if c == 0x7B {
                    self.i = self.i + 1;
                    self.parse_object_body()
                } else if c == 0x5B {
                    self.i = self.i + 1;
                    self.parse_array_body()
                } else if c == 0x22 {
                    self.i = self.i + 1;
                    match self.parse_string() {
                        Ok(st) => Ok(Json::Str(st)),
                        Err(e) => Err(e),
                    }
                } else if c == 0x74 {
                    self.expect_literal(Keyword::True)
                } else if c == 0x66 {
                    self.expect_literal(Keyword::False)
                } else if c == 0x6E {
                    self.expect_literal(Keyword::Null)
                } else if c == 0x2D || (0x30 <= c && c <= 0x39) {
                    self.parse_number()
                } else {
                    Err(JsonError::UnexpectedByte(c))
                }
            },
        }
    }

    /// Parses array elements; the opening `[` has been consumed.
    fn parse_array_body(&mut self) -> (r: Result<Json, JsonError>)
        requires
            old(self).wf(),
        ensures
            final(self).b == old(self).b,
            final(self).wf(),
            match items_at(old(self).b@, old(self).i as int) {
                Ok((items, e)) => r matches Ok(j) && j@ == JsonSpec::Arr(items) && final(self).i == e,
                Err(err) => r == Err::<Json, JsonError>(err),
            },
        decreases old(self).b@.len() - old(self).i, 1nat,
    {
        let ghost s = self.b@;
        let ghost i0 = self.i as int;
        let mut out: Vec<Json> = Vec::new();
        assert(json_seq_view(out@) + Seq::<JsonSpec>::empty() =~= Seq::<JsonSpec>::empty());
        loop
            invariant
                self.b@ == s,
                self.b == old(self).b,
                s == old(self).b@,
                i0 == old(self).i,
                i0 <= self.i <= s.len() <= usize::MAX,
                items_at(s, i0) == prepend_items(json_seq_view(out@), items_at(s, self.i as int)),
            decreases s.len() - self.i,
        {
            let ghost cur = self.i as int;
            proof {
                lemma_skip_ws_bounds(s, cur);
            }
            self.skip_ws();
            let ghost j = self.i as int;
            if self.peek() == Some(0x5Du8) {
                self.i = self.i + 1;
                assert(json_seq_view(out@) + Seq::<JsonSpec>::empty() =~= json_seq_view(out@));
                return Ok(Json::Arr(out));
            }
            let v = self.parse_value();
            match v {
                Err(e) => {
                    return Err(e);
                },
                Ok(v) => {
                    proof {
                        lemma_value_end(s, j);
                    }
                    let ghost m = self.i as int;
                    let ghost before = out@;
                    out.push(v);
                    assert(out@.drop_last() =~= before);
                    assert(json_seq_view(out@) == json_seq_view(before).push(json_view(v)));
                    proof {
                        lemma_skip_ws_bounds(s, m);
                    }
                    self.skip_ws();
                    let p = self.peek();
                    if p == Some(0x2Cu8) {
                        self.i = self.i + 1;
                        proof {
                            let rest = items_at(s, self.i as int);
                            if let Ok((r2, e2)) = rest {
                                assert(json_seq_view(before) + (seq![json_view(v)] + r2)
                                    =~= json_seq_view(out@) + r2);
                            }
                        }
                    } else if p == Some(0x5Du8) {
                        self.i = self.i + 1;
                        assert(json_seq_view(before) + seq![json_view(v)] =~= json_seq_view(out@));
                        return Ok(Json::Arr(out));
                    } else {
                        return Err(JsonError::ExpectedCommaOrBracket);
                    }
                },
            }
        }
    }

    /// Parses object members; the opening `{` has been consumed.
    fn parse_object_body(&mut self) -> (r: Result<Json, JsonError>)
        requires
            old(self).wf(),
        ensures
            final(self).b == old(self).b,
            final(self).wf(),
            match members_at(old(self).b@, old(self).i as int) {
                Ok((members, e)) => r matches Ok(j) && j@ == JsonSpec::Obj(members) && final(self).i
                    == e,
                Err(err) => r == Err::<Json, JsonError>(err),
            },
        decreases old(self).b@.len() - old(self).i, 1nat,
    {
        let ghost s = self.b@;
        let ghost i0 = self.i as int;
        let mut out: Vec<(String, Json)> = Vec::new();
        assert(json_obj_view(out@) + Seq::<(Seq<char>, JsonSpec)>::empty()
            =~= Seq::<(Seq<char>, JsonSpec)>::empty());
        loop
            invariant
                self.b@ == s,
                self.b == old(self).b,
                s == old(self).b@,
                i0 == old(self).i,
                i0 <= self.i <= s.len() <= usize::MAX,
                members_at(s, i0) == prepend_members(json_obj_view(out@), members_at(s, self.i as int)),
            decreases s.len() - self.i,
        {
            let ghost cur = self.i as int;
            proof {
                lemma_skip_ws_bounds(s, cur);
            }
            self.skip_ws();
            let ghost j = self.i as int;
            let p = self.peek();
            if p == Some(0x7Du8) {
                self.i = self.i + 1;
                assert(json_obj_view(out@) + Seq::<(Seq<char>, JsonSpec)>::empty() =~= json_obj_view(out@));
                return Ok(Json::Obj(out));
            }
            if p != Some(0x22u8) {
                return Err(JsonError::ExpectedKeyOrBrace);
            }
            self.i = self.i + 1;
            proof {
                lemma_string_body_end(s, j + 1);
            }
            let key = match self.parse_string() {
                Ok(k) => k,
                Err(e) => {
                    return Err(e);
                },
            };
            let ghost k = self.i as int;
            proof {
                lemma_skip_ws_bounds(s, k);
            }
            self.skip_ws();
            if self.bump() != Some(0x3Au8) {
                return Err(JsonError::ExpectedColon);
            }
            let ghost k2p = self.i as int;
            let val = match self.parse_value() {
                Ok(v) => v,
                Err(e) => {
                    return Err(e);
                },
            };
            proof {
                lemma_value_end(s, k2p);
            }
            let ghost m = self.i as int;
            let ghost before = out@;
            let ghost entry = (key@, json_view(val));
            out.push((key, val));
            assert(out@.drop_last() =~= before);
            assert(json_obj_view(out@) == json_obj_view(before).push(entry));
            proof {
                lemma_skip_ws_bounds(s, m);
            }
            self.skip_ws();
            let q = self.peek();
            if q == Some(0x2Cu8) {
                self.i = self.i + 1;
                proof {
                    let rest = members_at(s, self.i as int);
                    if let Ok((r2, e2)) = rest {
                        assert(json_obj_view(before) + (seq![entry] + r2) =~= json_obj_view(out@) + r2);
                    }
                }
            } else if q == Some(0x7Du8) {
                self.i = self.i + 1;
                assert(json_obj_view(before) + seq![entry] =~= json_obj_view(out@));
                return Ok(Json::Obj(out));
            } else {
                return Err(JsonError::ExpectedCommaOrBrace);
            }
        }
    }
}

proof fn lemma_marker_push(t: Seq<u8>, c: u8)
    ensures
        has_float_marker(t.push(c)) == (has_float_marker(t) || c == 0x2E || c == 0x65 || c == 0x45),
{
    let u = t.push(c);
    if has_float_marker(t) {
        let k = choose|k: int| 0 <= k < t.len() && (t[k] == 0x2E || t[k] == 0x65 || t[k] == 0x45);
        assert(u[k] == t[k]);
    }
    if c == 0x2E || c == 0x65 || c == 0x45 {
        assert(u[t.len() as int] == c);
    }
    if has_float_marker(u) {
        let k = choose|k: int| 0 <= k < u.len() && (u[k] == 0x2E || u[k] == 0x65 || u[k] == 0x45);
        if k < t.len() {
            assert(u[k] == t[k]);
        }
    }
}

impl Json {
    /// Parses a complete JSON document from UTF-8 bytes.
    pub fn parse(bytes: &[u8]) -> (r: Result<Json, JsonError>)
        ensures
            match document(bytes@) {
                Ok(v) => r matches Ok(j) && j@ == v,
                Err(err) => r == Err::<Json, JsonError>(err),
            },
    {
        let _n = bytes.len();
        let mut p = Parser { b: bytes, i: 0 };
        let v = p.parse_value()?;
        proof {
            lemma_value_end(bytes@, 0);
        }
        p.skip_ws();
        if p.i != p.b.len() {
            return Err(JsonError::TrailingContent(p.i));
        }
        Ok(v)
    }

    pub fn as_obj(&self) -> (r: Option<&[(String, Json)]>)
        ensures
            r is Some <==> self is Obj,
            r matches Some(o) ==> (self matches Json::Obj(v) && o@ == v@),
    {
        match self {
            Json::Obj(o) => Some(o.as_slice()),
            _ => None,
        }
    }

    pub fn as_arr(&self) -> (r: Option<&[Json]>)
        ensures
            r is Some <==> self is Arr,
            r matches Some(a) ==> (self matches Json::Arr(v) && a@ == v@),
    {
        match self {
            Json::Arr(a) => Some(a.as_slice()),
            _ => None,
        }
    }

    pub fn as_str(&self) -> (r: Option<&str>)
        ensures
            r is Some <==> self is Str,
            r matches Some(t) ==> (self matches Json::Str(v) && t@ == v@),
    {
        match self {
            Json::Str(t) => Some(t.as_str()),
            _ => None,
        }
    }

    pub fn as_u64(&self) -> (r: Option<u64>)
        ensures
            r is Some <==> self is Int,
            r matches Some(n) ==> *self == Json::Int(n),
    {
        match self {
            Json::Int(n) => Some(*n),
            _ => None,
        }
    }

}

pub open spec fn pow16(k: nat) -> nat
    decreases k,
{
    if k == 0 {
        1
    } else {
        16 * pow16((k - 1) as nat)
    }
}

proof fn lemma_pow16_step(k: nat, cp: u32, d: u32)
    requires
        k < 4,
        cp < pow16(k),
        d < 16,
    ensures
        cp * 16 + d < pow16(k + 1),
        pow16(k + 1) <= 0x10000,
{
    reveal_with_fuel(pow16, 5);
    assert(pow16(k + 1) == 16 * pow16(k));
}

proof fn lemma_prepend_bytes_assoc(a: Seq<u8>, b: Seq<u8>, r: Result<(Seq<u8>, int), JsonError>)
    ensures
        prepend_bytes(a, prepend_bytes(b, r)) == prepend_bytes(a + b, r),
{
    if let Ok((rest, e)) = r {
        assert(a + (b + rest) =~= (a + b) + rest);
    }
}

/// The value of the first member named `key`.
pub open spec fn lookup(m: Seq<(Seq<char>, JsonSpec)>, key: Seq<char>) -> Option<JsonSpec>
    decreases m.len(),
{
    if m.len() == 0 {
        None
    } else if m[0].0 == key {
        Some(m[0].1)
    } else {
        lookup(m.drop_first(), key)
    }
}

/// The model of a member list is the member list of the models.
pub(crate) proof fn lemma_obj_view_index(s: Seq<(String, Json)>)
    ensures
        json_obj_view(s).len() == s.len(),
        forall|k: int|
            0 <= k < s.len() ==> #[trigger] json_obj_view(s)[k] == (s[k].0@, json_view(s[k].1)),
    decreases s.len(),
{
    if s.len() > 0 {
        lemma_obj_view_index(s.drop_last());
        assert forall|k: int| 0 <= k < s.len() implies #[trigger] json_obj_view(s)[k] == (
            s[k].0@,
            json_view(s[k].1),
        ) by {
            if k < s.len() - 1 {
                assert(s.drop_last()[k] == s[k]);
            }
        }
    }
}

/// The model of an element list is the element list of the models.
pub(crate) proof fn lemma_seq_view_index(s: Seq<Json>)
    ensures
        json_seq_view(s).len() == s.len(),
        forall|k: int| 0 <= k < s.len() ==> #[trigger] json_seq_view(s)[k] == json_view(s[k]),
    decreases s.len(),
{
    if s.len() > 0 {
        lemma_seq_view_index(s.drop_last());
        assert forall|k: int| 0 <= k < s.len() implies #[trigger] json_seq_view(s)[k] == json_view(
            s[k],
        ) by {
            if k < s.len() - 1 {
                assert(s.drop_last()[k] == s[k]);
            }
        }
    }
}

/// The first member of `obj` named `key`.
pub fn obj_get<'b>(obj: &'b [(String, Json)], key: &str) -> (r: Option<&'b Json>)
    ensures
        match lookup(json_obj_view(obj@), key@) {
            Some(v) => r matches Some(x) && x@ == v,
            None => r is None,
        },
{
    let ghost m = json_obj_view(obj@);
    proof {
        lemma_obj_view_index(obj@);
    }
    assert(m.subrange(0, m.len() as int) =~= m);
    let mut k: usize = 0;
    while k < obj.len()
        invariant
            m == json_obj_view(obj@),
            m.len() == obj@.len(),
            k <= obj@.len(),
            lookup(m, key@) == lookup(m.subrange(k as int, m.len() as int), key@),
            forall|q: int|
                0 <= q < obj@.len() ==> #[trigger] m[q] == (obj@[q].0@, json_view(obj@[q].1)),
        decreases obj@.len() - k,
    {
        let ghost rest = m.subrange(k as int, m.len() as int);
        assert(rest[0] == m[k as int]);
        if crate::text::str_eq(obj[k].0.as_str(), key) {
            return Some(&obj[k].1);
        }
        assert(rest.drop_first() =~= m.subrange(k + 1, m.len() as int));
        k = k + 1;
    }
    assert(m.subrange(k as int, m.len() as int) =~= Seq::<(Seq<char>, JsonSpec)>::empty());
    None
}

// ---------------------------------------------------------------------------
// Printing
// ---------------------------------------------------------------------------

/// Decimal digits of a number, most significant first.
pub open spec fn decimal(n: nat) -> Seq<u8>
    decreases n,
{
    if n < 10 {
        seq![(0x30 + n) as u8]
    } else {
        decimal(n / 10).push((0x30 + n % 10) as u8)
    }
}

} // verus!
