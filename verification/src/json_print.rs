//! The compact JSON layout that checkpoint headers are written in, and the
//! law that parsing it gives back the printed value.
//!
//! Layout: `", "` between elements and members, `": "` after a key, strings
//! quoted as they are (no escapes), integers in decimal.
use vstd::prelude::*;
use vstd::utf8::*;
use crate::json::{
    JsonSpec, Keyword, all_digits, decimal, decimal_value, has_float_marker, is_digit, is_ws,
    items_at, keyword_at, keyword_bytes, lemma_value_end, members_at, number_at, number_end,
    skip_ws, string_at, string_body, value_at,
};

verus! {

broadcast use {encode_utf8_valid_utf8, encode_utf8_decode_utf8};

/// Characters that can be written inside quotes without an escape.
pub open spec fn plain_text(cs: Seq<char>) -> bool {
    forall|k: int| 0 <= k < cs.len() ==> #[trigger] cs[k] != '"' && cs[k] != '\\'
}

/// Values that this layout writes and reads back unchanged.
pub open spec fn printable(v: JsonSpec) -> bool
    decreases v, 1nat,
{
    match v {
        JsonSpec::Null => true,
        JsonSpec::Bool(_) => true,
        JsonSpec::Int(_) => true,
        JsonSpec::Float(_) => false,
        JsonSpec::Str(cs) => plain_text(cs),
        JsonSpec::Arr(items) => all_printable(items),
        JsonSpec::Obj(ms) => all_printable_members(ms),
    }
}

pub open spec fn all_printable(items: Seq<JsonSpec>) -> bool
    decreases items, 0nat,
{
    items.len() == 0 || (printable(items[0]) && all_printable(items.drop_first()))
}

pub open spec fn all_printable_members(ms: Seq<(Seq<char>, JsonSpec)>) -> bool
    decreases ms, 0nat,
{
    ms.len() == 0 || (plain_text(ms[0].0) && printable(ms[0].1) && all_printable_members(
        ms.drop_first(),
    ))
}

pub open spec fn quoted(cs: Seq<char>) -> Seq<u8> {
    seq![0x22u8] + encode_utf8(cs) + seq![0x22u8]
}

/// The text of a value.
pub open spec fn print(v: JsonSpec) -> Seq<u8>
    decreases v, 1nat,
{
    match v {
        JsonSpec::Null => keyword_bytes(Keyword::Null),
        JsonSpec::Bool(b) => if b {
            keyword_bytes(Keyword::True)
        } else {
            keyword_bytes(Keyword::False)
        },
        JsonSpec::Int(n) => decimal(n as nat),
        JsonSpec::Float(cs) => encode_utf8(cs),
        JsonSpec::Str(cs) => quoted(cs),
        JsonSpec::Arr(items) => seq![0x5Bu8] + print_items(items) + seq![0x5Du8],
        JsonSpec::Obj(ms) => seq![0x7Bu8] + print_members(ms) + seq![0x7Du8],
    }
}

/// Elements separated by `", "`.
pub open spec fn print_items(items: Seq<JsonSpec>) -> Seq<u8>
    decreases items, 0nat,
{
    if items.len() == 0 {
        Seq::empty()
    } else if items.len() == 1 {
        print(items[0])
    } else {
        print(items[0]) + seq![0x2Cu8, 0x20] + print_items(items.drop_first())
    }
}

/// Members `"key": value` separated by `", "`.
pub open spec fn print_members(ms: Seq<(Seq<char>, JsonSpec)>) -> Seq<u8>
    decreases ms, 0nat,
{
    if ms.len() == 0 {
        Seq::empty()
    } else if ms.len() == 1 {
        quoted(ms[0].0) + seq![0x3Au8, 0x20] + print(ms[0].1)
    } else {
        quoted(ms[0].0) + seq![0x3Au8, 0x20] + print(ms[0].1) + seq![0x2Cu8, 0x20]
            + print_members(ms.drop_first())
    }
}

/// A byte that may follow a value in this layout.
pub open spec fn ends_value(c: u8) -> bool {
    c == 0x2C || c == 0x5D || c == 0x7D || is_ws(c)
}

// ---------------------------------------------------------------------------
// Building blocks
// ---------------------------------------------------------------------------

pub(crate) proof fn lemma_decimal(n: nat)
    ensures
        decimal(n).len() >= 1,
        all_digits(decimal(n)),
        decimal_value(decimal(n)) == n,
    decreases n,
{
    if n < 10 {
        assert(decimal(n).drop_last() =~= Seq::<u8>::empty());
        assert(decimal(n).last() == 0x30 + n);
        assert(decimal_value(Seq::<u8>::empty()) == 0);
        assert(decimal_value(decimal(n)) == decimal_value(decimal(n).drop_last()) * 10 + (
        decimal(n).last() - 0x30) as nat);
    } else {
        lemma_decimal(n / 10);
        let d = decimal(n);
        assert(d.drop_last() =~= decimal(n / 10));
        assert(d.last() == 0x30 + n % 10);
        assert((n / 10) * 10 + n % 10 == n);
        assert(decimal_value(d) == decimal_value(d.drop_last()) * 10 + (d.last() - 0x30) as nat);
        assert forall|k: int| 0 <= k < d.len() implies is_digit(#[trigger] d[k]) by {
            if k < d.len() - 1 {
                assert(d[k] == decimal(n / 10)[k]);
            }
        }
    }
}

/// The lexer stops right after a run of digits.
proof fn lemma_digits_number_end(s: Seq<u8>, i: int, t: Seq<u8>)
    requires
        0 <= i,
        i + t.len() <= s.len(),
        s.subrange(i, i + t.len()) == t,
        all_digits(t),
        i + t.len() < s.len() ==> ends_value(s[i + t.len()]),
    ensures
        number_end(s, i) == i + t.len(),
    decreases t.len(),
{
    if t.len() > 0 {
        assert(s[i] == t[0]);
        let u = t.drop_first();
        assert(s.subrange(i + 1, i + 1 + u.len()) =~= u);
        assert(all_digits(u)) by {
            assert forall|k: int| 0 <= k < u.len() implies is_digit(#[trigger] u[k]) by {
                assert(u[k] == t[k + 1]);
            }
        }
        lemma_digits_number_end(s, i + 1, u);
    }
}

proof fn lemma_number_decimal(s: Seq<u8>, i: int, n: u64)
    requires
        0 <= i,
        i + decimal(n as nat).len() <= s.len(),
        s.subrange(i, i + decimal(n as nat).len()) == decimal(n as nat),
        i + decimal(n as nat).len() < s.len() ==> ends_value(s[i + decimal(n as nat).len()]),
    ensures
        number_at(s, i) == Ok::<(JsonSpec, int), crate::json::JsonError>(
            (JsonSpec::Int(n), i + decimal(n as nat).len()),
        ),
{
    let t = decimal(n as nat);
    lemma_decimal(n as nat);
    lemma_digits_number_end(s, i, t);
    assert(!has_float_marker(t)) by {
        if has_float_marker(t) {
            let k = choose|k: int| 0 <= k < t.len() && (t[k] == 0x2E || t[k] == 0x65 || t[k] == 0x45);
            assert(is_digit(t[k]));
        }
    }
    assert(is_digit(t[0]));
    assert(!(t =~= seq![0x2Du8]));
}

/// A run of bytes without quote or backslash, closed by a quote.
proof fn lemma_string_plain(s: Seq<u8>, i: int, b: Seq<u8>)
    requires
        0 <= i,
        i + b.len() < s.len(),
        s.subrange(i, i + b.len()) == b,
        s[i + b.len()] == 0x22,
        forall|k: int| 0 <= k < b.len() ==> #[trigger] b[k] != 0x22 && b[k] != 0x5C,
    ensures
        string_body(s, i) == Ok::<(Seq<u8>, int), crate::json::JsonError>((b, i + b.len() + 1)),
    decreases b.len(),
{
    if b.len() > 0 {
        let u = b.drop_first();
        assert(s[i] == b[0]);
        assert(s.subrange(i + 1, i + 1 + u.len()) =~= u);
        assert forall|k: int| 0 <= k < u.len() implies #[trigger] u[k] != 0x22 && u[k] != 0x5C by {
            assert(u[k] == b[k + 1]);
        }
        lemma_string_plain(s, i + 1, u);
        assert(seq![b[0]] + u =~= b);
    } else {
        assert(b =~= Seq::<u8>::empty());
    }
}

proof fn lemma_scalar_bytes(c: u32)
    requires
        is_scalar(c),
    ensures
        has_width_1_encoding(c) ==> encode_scalar(c) == seq![c as u8],
        !has_width_1_encoding(c) ==> forall|k: int|
            0 <= k < encode_scalar(c).len() ==> #[trigger] encode_scalar(c)[k] >= 0x80,
{
    if has_width_1_encoding(c) {
        assert((c & 0x7F) as u8 == c as u8) by (bit_vector)
            requires
                c <= 0x7F,
        ;
    } else {
        assert(forall|x: u32| #[trigger] (0xC0u8 | ((x >> 6) & 0x1F) as u8) >= 0x80) by (bit_vector);
        assert(forall|x: u32| #[trigger] (0xE0u8 | ((x >> 12) & 0x0F) as u8) >= 0x80) by (bit_vector);
        assert(forall|x: u32| #[trigger] (0xF0u8 | ((x >> 18) & 0x7) as u8) >= 0x80) by (bit_vector);
        assert(forall|x: u32| #[trigger] (0x80u8 | (x & 0x3F) as u8) >= 0x80) by (bit_vector);
        assert(forall|x: u32| #[trigger] (0x80u8 | ((x >> 6) & 0x3F) as u8) >= 0x80) by (bit_vector);
        assert(forall|x: u32| #[trigger] (0x80u8 | ((x >> 12) & 0x3F) as u8) >= 0x80) by (bit_vector);
    }
}

/// Plain text encodes without quote or backslash bytes.
pub(crate) proof fn lemma_plain_bytes(cs: Seq<char>)
    requires
        plain_text(cs),
    ensures
        forall|k: int|
            0 <= k < encode_utf8(cs).len() ==> #[trigger] encode_utf8(cs)[k] != 0x22
                && encode_utf8(cs)[k] != 0x5C,
    decreases cs.len(),
{
    if cs.len() > 0 {
        let rest = cs.drop_first();
        assert(plain_text(rest)) by {
            assert forall|k: int| 0 <= k < rest.len() implies #[trigger] rest[k] != '"' && rest[k] != '\\' by {
                assert(rest[k] == cs[k + 1]);
            }
        }
        lemma_plain_bytes(rest);
        let c = cs[0] as u32;
        assert('"' as u32 == 0x22 && '\\' as u32 == 0x5C);
        char_u32_cast(cs[0], c);
        char_u32_cast('"', 0x22);
        char_u32_cast('\\', 0x5C);
        char_is_scalar(cs[0]);
        lemma_scalar_bytes(c);
        let e = encode_scalar(c);
        let all = encode_utf8(cs);
        assert(all == e + encode_utf8(rest));
        assert(cs[0] != '"' && cs[0] != '\\');
        assert forall|k: int| 0 <= k < all.len() implies #[trigger] all[k] != 0x22 && all[k] != 0x5C by {
            if k < e.len() {
                assert(all[k] == e[k]);
                if has_width_1_encoding(c) {
                    assert(e[k] == c as u8);
                    assert(c != 0x22 && c != 0x5C);
                }
            } else {
                assert(all[k] == encode_utf8(rest)[k - e.len()]);
            }
        }
    }
}

proof fn lemma_quoted_string(s: Seq<u8>, i: int, cs: Seq<char>)
    requires
        plain_text(cs),
        0 <= i,
        i + quoted(cs).len() <= s.len(),
        s.subrange(i, i + quoted(cs).len()) == quoted(cs),
    ensures
        string_at(s, i + 1) == Ok::<(Seq<char>, int), crate::json::JsonError>((cs, i + quoted(cs).len())),
{
    let b = encode_utf8(cs);
    let q = quoted(cs);
    assert(s.subrange(i + 1, i + 1 + b.len()) =~= b) by {
        assert forall|k: int| 0 <= k < b.len() implies s.subrange(i + 1, i + 1 + b.len())[k] == b[k] by {
            assert(q[k + 1] == b[k]);
            assert(s[i + 1 + k] == q[k + 1]);
        }
    }
    assert(s[i + 1 + b.len()] == q[b.len() + 1int]);
    lemma_plain_bytes(cs);
    lemma_string_plain(s, i + 1, b);
}

pub(crate) proof fn lemma_print_nonempty(v: JsonSpec)
    requires
        printable(v),
    ensures
        print(v).len() >= 1,
        !is_ws(print(v)[0]),
        print(v)[0] != 0x5D,
        print(v)[0] != 0x7D,
{
    match v {
        JsonSpec::Int(n) => {
            lemma_decimal(n as nat);
            assert(is_digit(decimal(n as nat)[0]));
        },
        _ => {},
    }
}

/// Elements that are each printable.
pub(crate) proof fn lemma_all_printable(items: Seq<JsonSpec>)
    requires
        forall|k: int| 0 <= k < items.len() ==> printable(#[trigger] items[k]),
    ensures
        all_printable(items),
    decreases items.len(),
{
    if items.len() > 0 {
        let rest = items.drop_first();
        assert forall|k: int| 0 <= k < rest.len() implies printable(#[trigger] rest[k]) by {
            assert(rest[k] == items[k + 1]);
        }
        lemma_all_printable(rest);
        assert(printable(items[0]));
    }
}

/// Members that each have a plain key and a printable value.
pub(crate) proof fn lemma_all_printable_members(ms: Seq<(Seq<char>, JsonSpec)>)
    requires
        forall|k: int| 0 <= k < ms.len() ==> plain_text(#[trigger] ms[k].0) && printable(ms[k].1),
    ensures
        all_printable_members(ms),
    decreases ms.len(),
{
    if ms.len() > 0 {
        let rest = ms.drop_first();
        assert forall|k: int| 0 <= k < rest.len() implies plain_text(#[trigger] rest[k].0) && printable(
            rest[k].1,
        ) by {
            assert(rest[k] == ms[k + 1]);
        }
        lemma_all_printable_members(rest);
        assert(plain_text(ms[0].0) && printable(ms[0].1));
    }
}

/// Appending an element appends `", "` and its text.
pub(crate) proof fn lemma_print_items_push(items: Seq<JsonSpec>, x: JsonSpec)
    requires
        items.len() >= 1,
    ensures
        print_items(items.push(x)) == print_items(items) + seq![0x2Cu8, 0x20] + print(x),
    decreases items.len(),
{
    let p = items.push(x);
    if items.len() == 1 {
        assert(p.drop_first() =~= seq![x]);
        assert(print_items(seq![x]) == print(x));
    } else {
        lemma_print_items_push(items.drop_first(), x);
        assert(p.drop_first() =~= items.drop_first().push(x));
        assert(print_items(p) =~= print_items(items) + seq![0x2Cu8, 0x20] + print(x));
    }
}

/// Appending a member appends `", "` and its text.
pub(crate) proof fn lemma_print_members_push(ms: Seq<(Seq<char>, JsonSpec)>, key: Seq<char>, v: JsonSpec)
    requires
        ms.len() >= 1,
    ensures
        print_members(ms.push((key, v))) == print_members(ms) + seq![0x2Cu8, 0x20] + quoted(key)
            + seq![0x3Au8, 0x20] + print(v),
    decreases ms.len(),
{
    let p = ms.push((key, v));
    if ms.len() == 1 {
        assert(p.drop_first() =~= seq![(key, v)]);
        assert(print_members(seq![(key, v)]) == quoted(key) + seq![0x3Au8, 0x20] + print(v));
        assert(print_members(p) =~= print_members(ms) + seq![0x2Cu8, 0x20] + quoted(key) + seq![
            0x3Au8,
            0x20,
        ] + print(v));
    } else {
        lemma_print_members_push(ms.drop_first(), key, v);
        assert(p.drop_first() =~= ms.drop_first().push((key, v)));
        assert(print_members(p) =~= print_members(ms) + seq![0x2Cu8, 0x20] + quoted(key) + seq![
            0x3Au8,
            0x20,
        ] + print(v));
    }
}

// ---------------------------------------------------------------------------
// The law
// ---------------------------------------------------------------------------

/// Parsing the printed text of a value (after at most one space, and before a
/// byte that may follow a value) gives back the value.
pub(crate) proof fn lemma_print_value(v: JsonSpec, s: Seq<u8>, i: int, w: int)
    requires
        printable(v),
        0 <= i,
        w == 0 || (w == 1 && s[i] == 0x20),
        i + w + print(v).len() <= s.len(),
        s.subrange(i + w, i + w + print(v).len()) == print(v),
        i + w + print(v).len() < s.len() ==> ends_value(s[i + w + print(v).len()]),
    ensures
        value_at(s, i) == Ok::<(JsonSpec, int), crate::json::JsonError>((v, i + w + print(v).len())),
    decreases v, 1nat,
{
    let p = print(v);
    let j = i + w;
    lemma_print_nonempty(v);
    assert(s[j] == p[0]);
    assert(skip_ws(s, j) == j);
    if w == 1 {
        assert(skip_ws(s, i) == skip_ws(s, i + 1));
    }
    assert(skip_ws(s, i) == j);
    match v {
        JsonSpec::Int(n) => {
            lemma_number_decimal(s, j, n);
        },
        JsonSpec::Str(cs) => {
            lemma_quoted_string(s, j, cs);
        },
        JsonSpec::Null => {
            assert(s.subrange(j, j + 4) =~= keyword_bytes(Keyword::Null));
        },
        JsonSpec::Bool(b) => {
            if b {
                assert(s.subrange(j, j + 4) =~= keyword_bytes(Keyword::True));
            } else {
                assert(s.subrange(j, j + 5) =~= keyword_bytes(Keyword::False));
            }
        },
        JsonSpec::Arr(items) => {
            let pi = print_items(items);
            assert(s.subrange(j + 1, j + 1 + pi.len()) =~= pi) by {
                assert forall|k: int| 0 <= k < pi.len() implies s.subrange(j + 1, j + 1 + pi.len())[k] == pi[k] by {
                    assert(p[k + 1] == pi[k]);
                    assert(s[j + 1 + k] == p[k + 1]);
                }
            }
            assert(s[j + 1 + pi.len()] == p[pi.len() + 1int]);
            lemma_print_items(items, s, j + 1, 0);
        },
        JsonSpec::Obj(ms) => {
            let pm = print_members(ms);
            assert(s.subrange(j + 1, j + 1 + pm.len()) =~= pm) by {
                assert forall|k: int| 0 <= k < pm.len() implies s.subrange(j + 1, j + 1 + pm.len())[k] == pm[k] by {
                    assert(p[k + 1] == pm[k]);
                    assert(s[j + 1 + k] == p[k + 1]);
                }
            }
            assert(s[j + 1 + pm.len()] == p[pm.len() + 1int]);
            lemma_print_members(ms, s, j + 1, 0);
        },
        JsonSpec::Float(_) => {},
    }
}

/// Array elements as printed, closed by `]`.
#[verifier::spinoff_prover]
#[verifier::rlimit(40)]
pub(crate) proof fn lemma_print_items(items: Seq<JsonSpec>, s: Seq<u8>, i: int, w: int)
    requires
        all_printable(items),
        0 <= i,
        w == 0 || (w == 1 && s[i] == 0x20),
        i + w + print_items(items).len() < s.len(),
        s.subrange(i + w, i + w + print_items(items).len()) == print_items(items),
        s[i + w + print_items(items).len()] == 0x5D,
    ensures
        items_at(s, i) == Ok::<(Seq<JsonSpec>, int), crate::json::JsonError>(
            (items, i + w + print_items(items).len() + 1),
        ),
    decreases items, 0nat,
{
    let pi = print_items(items);
    let j = i + w;
    if items.len() == 0 {
        assert(skip_ws(s, j) == j);
        if w == 1 {
            assert(skip_ws(s, i) == skip_ws(s, i + 1));
        }
        assert(items =~= Seq::<JsonSpec>::empty());
    } else {
        let v = items[0];
        let p0 = print(v);
        lemma_print_nonempty(v);
        assert(s[j] == pi[0]);
        assert(skip_ws(s, j) == j);
        if w == 1 {
            assert(skip_ws(s, i) == skip_ws(s, i + 1));
        }
        assert(s.subrange(j, j + p0.len()) =~= p0) by {
            assert forall|k: int| 0 <= k < p0.len() implies s.subrange(j, j + p0.len())[k] == p0[k] by {
                assert(pi[k] == p0[k]);
                assert(s[j + k] == pi[k]);
            }
        }
        let m = j + p0.len();
        if items.len() == 1 {
            assert(pi == p0);
            lemma_print_value(v, s, j, 0);
            assert(skip_ws(s, m) == m);
            assert(seq![v] =~= items);
        } else {
            let rest = items.drop_first();
            let pr = print_items(rest);
            assert(pi == p0 + seq![0x2Cu8, 0x20] + pr);
            assert(s[m] == pi[p0.len() as int]);
            assert(s[m + 1] == pi[p0.len() + 1int]);
            lemma_print_value(v, s, j, 0);
            assert(skip_ws(s, m) == m);
            assert(s.subrange(m + 2, m + 2 + pr.len()) =~= pr) by {
                assert forall|k: int| 0 <= k < pr.len() implies s.subrange(m + 2, m + 2 + pr.len())[k] == pr[k] by {
                    assert(pi[p0.len() + 2 + k] == pr[k]);
                    assert(s[m + 2 + k] == pi[p0.len() + 2 + k]);
                }
            }
            assert(s[m + 2 + pr.len()] == s[j + pi.len()]);
            lemma_print_items(rest, s, m + 1, 1);
            assert(seq![v] + rest =~= items);
        }
    }
}

/// Object members as printed, closed by `}`.
#[verifier::spinoff_prover]
#[verifier::rlimit(60)]
pub(crate) proof fn lemma_print_members(ms: Seq<(Seq<char>, JsonSpec)>, s: Seq<u8>, i: int, w: int)
    requires
        all_printable_members(ms),
        0 <= i,
        w == 0 || (w == 1 && s[i] == 0x20),
        i + w + print_members(ms).len() < s.len(),
        s.subrange(i + w, i + w + print_members(ms).len()) == print_members(ms),
        s[i + w + print_members(ms).len()] == 0x7D,
    ensures
        members_at(s, i) == Ok::<(Seq<(Seq<char>, JsonSpec)>, int), crate::json::JsonError>(
            (ms, i + w + print_members(ms).len() + 1),
        ),
    decreases ms, 0nat,
{
    let pm = print_members(ms);
    let j = i + w;
    if ms.len() == 0 {
        assert(skip_ws(s, j) == j);
        if w == 1 {
            assert(skip_ws(s, i) == skip_ws(s, i + 1));
        }
        assert(ms =~= Seq::<(Seq<char>, JsonSpec)>::empty());
    } else {
        let key = ms[0].0;
        let v = ms[0].1;
        let q = quoted(key);
        let pv = print(v);
        let p0 = q + seq![0x3Au8, 0x20] + pv;
        assert(s[j] == pm[0]);
        assert(pm[0] == p0[0]);
        assert(skip_ws(s, j) == j);
        if w == 1 {
            assert(skip_ws(s, i) == skip_ws(s, i + 1));
        }
        assert(s.subrange(j, j + p0.len()) =~= p0) by {
            assert forall|k: int| 0 <= k < p0.len() implies s.subrange(j, j + p0.len())[k] == p0[k] by {
                assert(pm[k] == p0[k]);
                assert(s[j + k] == pm[k]);
            }
        }
        assert(s.subrange(j, j + q.len()) =~= q) by {
            assert forall|k: int| 0 <= k < q.len() implies s.subrange(j, j + q.len())[k] == q[k] by {
                assert(p0[k] == q[k]);
                assert(s[j + k] == p0[k]);
            }
        }
        lemma_quoted_string(s, j, key);
        let k = j + q.len();
        assert(s[k] == p0[q.len() as int]);
        assert(s[k] == 0x3A);
        assert(skip_ws(s, k) == k);
        assert(s[k + 1] == p0[q.len() + 1int]);
        lemma_print_nonempty(v);
        assert(s.subrange(k + 2, k + 2 + pv.len()) =~= pv) by {
            assert forall|t: int| 0 <= t < pv.len() implies s.subrange(k + 2, k + 2 + pv.len())[t] == pv[t] by {
                assert(p0[q.len() + 2 + t] == pv[t]);
                assert(s[k + 2 + t] == p0[q.len() + 2 + t]);
            }
        }
        let m = j + p0.len();
        assert(m == k + 2 + pv.len());
        if ms.len() == 1 {
            assert(pm == p0);
            lemma_print_value(v, s, k + 1, 1);
            assert(skip_ws(s, m) == m);
            assert(seq![(key, v)] =~= ms);
        } else {
            let rest = ms.drop_first();
            let pr = print_members(rest);
            assert(pm == p0 + seq![0x2Cu8, 0x20] + pr);
            assert(s[m] == pm[p0.len() as int]);
            assert(s[m + 1] == pm[p0.len() + 1int]);
            lemma_print_value(v, s, k + 1, 1);
            assert(skip_ws(s, m) == m);
            assert(s.subrange(m + 2, m + 2 + pr.len()) =~= pr) by {
                assert forall|t: int| 0 <= t < pr.len() implies s.subrange(m + 2, m + 2 + pr.len())[t] == pr[t] by {
                    assert(pm[p0.len() + 2 + t] == pr[t]);
                    assert(s[m + 2 + t] == pm[p0.len() + 2 + t]);
                }
            }
            assert(s[m + 2 + pr.len()] == s[j + pm.len()]);
            lemma_print_members(rest, s, m + 1, 1);
            assert(seq![(key, v)] + rest =~= ms);
        }
    }
}

/// A printed document parses back to the value it was printed from.
pub proof fn lemma_print_document(v: JsonSpec)
    requires
        printable(v),
    ensures
        crate::json::document(print(v)) == Ok::<JsonSpec, crate::json::JsonError>(v),
{
    let s = print(v);
    assert(s.subrange(0, s.len() as int) =~= s);
    lemma_print_value(v, s, 0, 0);
    assert(skip_ws(s, s.len() as int) == s.len());
}

} // verus!
