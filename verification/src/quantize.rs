//! The rules of offline weight quantization: which tensors are converted to
//! F16 and which stay F32 (presets and `--keep-f32` prefix lists), and the
//! precision stamp added to a checkpoint's `config.json`.
use vstd::prelude::*;
use vstd::string::{StrSliceExecFns, StringExecFns};
use crate::config::QuantizationPrecision;
use crate::text::{chars_of, str_eq};

verus! {

/// Unicode `White_Space`, as `char::is_whitespace` documents it.
pub open spec fn is_white(c: char) -> bool {
    ('\u{9}' <= c && c <= '\u{D}') || c == ' ' || c == '\u{85}' || c == '\u{A0}' || c == '\u{1680}'
        || ('\u{2000}' <= c && c <= '\u{200A}') || c == '\u{2028}' || c == '\u{2029}' || c
        == '\u{202F}' || c == '\u{205F}' || c == '\u{3000}'
}

pub fn is_white_exec(c: char) -> (r: bool)
    ensures
        r == is_white(c),
{
    ('\u{9}' <= c && c <= '\u{D}') || c == ' ' || c == '\u{85}' || c == '\u{A0}' || c == '\u{1680}'
        || ('\u{2000}' <= c && c <= '\u{200A}') || c == '\u{2028}' || c == '\u{2029}' || c
        == '\u{202F}' || c == '\u{205F}' || c == '\u{3000}'
}

/// The first index from `i` on that is not white space (or the length).
pub open spec fn lead(p: Seq<char>, i: int) -> int
    decreases p.len() - i,
{
    if 0 <= i < p.len() && is_white(p[i]) {
        lead(p, i + 1)
    } else {
        i
    }
}

/// The end of `p[..j]` once trailing white space is dropped.
pub open spec fn trail(p: Seq<char>, j: int) -> int
    decreases j,
{
    if 0 < j <= p.len() && is_white(p[j - 1]) {
        trail(p, j - 1)
    } else {
        j
    }
}

/// `p` without leading and trailing white space, as `str::trim`.
pub open spec fn trim(p: Seq<char>) -> Seq<char> {
    let a = lead(p, 0);
    let b = trail(p, p.len() as int);
    if a < b {
        p.subrange(a, b)
    } else {
        Seq::empty()
    }
}

/// The first comma at or after `i` (or the length).
pub open spec fn next_comma(s: Seq<char>, i: int) -> int
    decreases s.len() - i,
{
    if i < 0 || i >= s.len() {
        s.len() as int
    } else if s[i] == ',' {
        i
    } else {
        next_comma(s, i + 1)
    }
}

/// The comma-separated pieces of `s` from `i` on, as `str::split(',')`.
pub open spec fn pieces(s: Seq<char>, i: int) -> Seq<Seq<char>>
    decreases s.len() - i,
{
    let j = next_comma(s, i);
    if i < 0 || i > s.len() || j >= s.len() {
        seq![s.subrange(i, s.len() as int)]
    } else {
        proof {
            lemma_next_comma(s, i);
        }
        seq![s.subrange(i, j)].add(pieces(s, j + 1))
    }
}

/// The trimmed, non-empty pieces of a list.
pub open spec fn kept(ps: Seq<Seq<char>>) -> Seq<Seq<char>>
    decreases ps.len(),
{
    if ps.len() == 0 {
        Seq::empty()
    } else if trim(ps[0]).len() > 0 {
        seq![trim(ps[0])].add(kept(ps.drop_first()))
    } else {
        kept(ps.drop_first())
    }
}

/// The prefixes of a `--keep-f32` list: comma-separated, trimmed, empty
/// entries dropped.
pub open spec fn keep_list(s: Seq<char>) -> Seq<Seq<char>> {
    kept(pieces(s, 0))
}

/// The next comma from `i` (or the end) and that no comma comes before it.
pub proof fn lemma_next_comma(s: Seq<char>, i: int)
    requires
        0 <= i <= s.len(),
    ensures
        i <= next_comma(s, i) <= s.len(),
        next_comma(s, i) < s.len() ==> s[next_comma(s, i)] == ',',
        forall|k: int| i <= k < next_comma(s, i) ==> s[k] != ',',
    decreases s.len() - i,
{
    if i < s.len() && s[i] != ',' {
        lemma_next_comma(s, i + 1);
    }
}

pub(crate) proof fn lemma_lead(p: Seq<char>, i: int)
    requires
        0 <= i <= p.len(),
    ensures
        i <= lead(p, i) <= p.len(),
        forall|k: int| i <= k < lead(p, i) ==> is_white(#[trigger] p[k]),
        lead(p, i) < p.len() ==> !is_white(p[lead(p, i)]),
    decreases p.len() - i,
{
    if i < p.len() && is_white(p[i]) {
        lemma_lead(p, i + 1);
    }
}

pub(crate) proof fn lemma_trail(p: Seq<char>, j: int)
    requires
        0 <= j <= p.len(),
    ensures
        0 <= trail(p, j) <= j,
        trail(p, j) > 0 ==> !is_white(p[trail(p, j) - 1]),
    decreases j,
{
    if j > 0 && is_white(p[j - 1]) {
        lemma_trail(p, j - 1);
    }
}

/// `s[from..to]` trimmed, as an owned string.
pub(crate) fn trimmed_piece(s: &str, cs: &Vec<char>, from: usize, to: usize) -> (r: String)
    requires
        cs@ == s@,
        from <= to <= cs@.len(),
    ensures
        r@ == trim(s@.subrange(from as int, to as int)),
{
    let ghost p = s@.subrange(from as int, to as int);
    let mut a = from;
    while a < to && is_white_exec(cs[a])
        invariant
            cs@ == s@,
            from <= a <= to <= cs@.len(),
            p == s@.subrange(from as int, to as int),
            lead(p, 0) == lead(p, a - from),
        decreases to - a,
    {
        a = a + 1;
    }
    proof {
        assert(lead(p, a - from) == a - from);
    }
    let mut b = to;
    while b > from && is_white_exec(cs[b - 1])
        invariant
            cs@ == s@,
            from <= b <= to <= cs@.len(),
            p == s@.subrange(from as int, to as int),
            trail(p, p.len() as int) == trail(p, b - from),
        decreases b - from,
    {
        b = b - 1;
    }
    proof {
        assert(trail(p, b - from) == b - from);
    }
    if a < b {
        let t = s.substring_char(a, b);
        assert(t@ =~= trim(p));
        String::from_str(t)
    } else {
        assert(trim(p) =~= Seq::<char>::empty());
        String::new()
    }
}

proof fn lemma_kept_append(a: Seq<Seq<char>>, x: Seq<char>)
    ensures
        kept(a.push(x)) == kept(a) + kept(seq![x]),
    decreases a.len(),
{
    if a.len() == 0 {
        assert(a.push(x) =~= seq![x]);
        assert(kept(a) =~= Seq::<Seq<char>>::empty());
        assert(Seq::<Seq<char>>::empty() + kept(seq![x]) =~= kept(seq![x]));
    } else {
        assert(a.push(x).drop_first() =~= a.drop_first().push(x));
        lemma_kept_append(a.drop_first(), x);
        if trim(a[0]).len() > 0 {
            assert(seq![trim(a[0])].add(kept(a.drop_first()) + kept(seq![x])) =~= seq![trim(a[0])].add(
                kept(a.drop_first()),
            ) + kept(seq![x]));
        }
    }
}

/// The views of a list of strings.
pub open spec fn views(v: Seq<String>) -> Seq<Seq<char>> {
    v.map_values(|x: String| x@)
}

/// The prefixes of a comma-separated list: trimmed, empty entries dropped.
pub fn split_keep_list(list: &str) -> (r: Vec<String>)
    ensures
        views(r@) == keep_list(list@),
{
    let cs = chars_of(list);
    let n = cs.len();
    let mut out: Vec<String> = Vec::new();
    let mut i: usize = 0;
    let ghost mut done: Seq<Seq<char>> = Seq::empty();
    proof {
        assert(pieces(list@, 0) == done + pieces(list@, 0));
    }
    loop
        invariant
            cs@ == list@,
            n == cs@.len(),
            0 <= i <= n,
            views(out@) == kept(done),
            pieces(list@, 0) == done + pieces(list@, i as int),
        decreases n - i,
    {
        let mut j = i;
        while j < n && cs[j] != ','
            invariant
                cs@ == list@,
                n == cs@.len(),
                i <= j <= n,
                next_comma(list@, i as int) == next_comma(list@, j as int),
            decreases n - j,
        {
            j = j + 1;
        }
        let piece = trimmed_piece(list, &cs, i, j);
        let ghost x = list@.subrange(i as int, j as int);
        proof {
            lemma_kept_append(done, x);
            assert(seq![x].drop_first() =~= Seq::<Seq<char>>::empty());
            assert(kept(Seq::<Seq<char>>::empty()) == Seq::<Seq<char>>::empty());
            if trim(x).len() > 0 {
                assert(kept(seq![x]) =~= seq![trim(x)]);
            } else {
                assert(kept(seq![x]) =~= Seq::<Seq<char>>::empty());
            }
        }
        let ghost before = out@;
        if !piece.as_str().is_empty() {
            out.push(piece);
            assert(views(out@) =~= views(before).push(trim(x)));
        } else {
            assert(piece@.len() == 0);
        }
        assert(views(out@) =~= kept(done.push(x)));
        if j >= n {
            proof {
                assert(pieces(list@, i as int) =~= seq![x]);
                assert(pieces(list@, 0) =~= done.push(x));
                done = done.push(x);
            }
            return out;
        }
        proof {
            assert(pieces(list@, i as int) =~= seq![x].add(pieces(list@, j + 1)));
            assert(pieces(list@, 0) =~= done.push(x) + pieces(list@, j + 1));
            done = done.push(x);
        }
        i = j + 1;
    }
}

} // verus!

verus! {

/// Why the quantizer's arguments were refused.
#[derive(Debug, Clone, Copy, PartialEq, Eq, Structural)]
pub enum QuantizeError {
    /// `--preset` is the last argument.
    MissingPresetName,
    /// The preset is neither `balanced` nor `ultra` (`high_accuracy`).
    UnknownPreset,
    /// `--keep-f32` is the last argument.
    MissingKeepList,
}

/// The first argument from `i` on equal to `key`, or -1.
pub open spec fn arg_index(args: Seq<Seq<char>>, key: Seq<char>, i: int) -> int
    decreases args.len() - i,
{
    if i < 0 || i >= args.len() {
        -1
    } else if args[i] == key {
        i
    } else {
        arg_index(args, key, i + 1)
    }
}

/// `balanced`: the output head, the pre-transformer residual block and the
/// last three transformer layers stay F32.
pub open spec fn balanced_prefixes() -> Seq<Seq<char>> {
    seq![
        "output_head"@,
        "pre_transformer_resblock"@,
        "transformer_stack.layers.17."@,
        "transformer_stack.layers.18."@,
        "transformer_stack.layers.19."@,
    ]
}

/// `ultra` (`high_accuracy`): as `balanced`, with the last five layers.
pub open spec fn ultra_prefixes() -> Seq<Seq<char>> {
    seq![
        "output_head"@,
        "pre_transformer_resblock"@,
        "transformer_stack.layers.15."@,
        "transformer_stack.layers.16."@,
        "transformer_stack.layers.17."@,
        "transformer_stack.layers.18."@,
        "transformer_stack.layers.19."@,
    ]
}

/// The tensor-name prefixes that stay F32: a `--preset` wins over a
/// `--keep-f32` list; without either, none.
pub open spec fn keep_f32_spec(args: Seq<Seq<char>>) -> Result<Seq<Seq<char>>, QuantizeError> {
    let ps = arg_index(args, "--preset"@, 0);
    if ps >= 0 {
        if ps + 1 >= args.len() {
            Err(QuantizeError::MissingPresetName)
        } else if args[ps + 1] == "balanced"@ {
            Ok(balanced_prefixes())
        } else if args[ps + 1] == "ultra"@ || args[ps + 1] == "high_accuracy"@ {
            Ok(ultra_prefixes())
        } else {
            Err(QuantizeError::UnknownPreset)
        }
    } else {
        let ks = arg_index(args, "--keep-f32"@, 0);
        if ks >= 0 {
            if ks + 1 >= args.len() {
                Err(QuantizeError::MissingKeepList)
            } else {
                Ok(keep_list(args[ks + 1]))
            }
        } else {
            Ok(Seq::empty())
        }
    }
}

fn find_arg(args: &[String], key: &str) -> (r: Option<usize>)
    ensures
        match r {
            Some(i) => i as int == arg_index(views(args@), key@, 0) && i < args@.len(),
            None => arg_index(views(args@), key@, 0) == -1,
        },
{
    let ghost a = views(args@);
    let mut i: usize = 0;
    while i < args.len()
        invariant
            a == views(args@),
            a.len() == args@.len(),
            i <= args@.len(),
            arg_index(a, key@, 0) == arg_index(a, key@, i as int),
        decreases args@.len() - i,
    {
        if str_eq(args[i].as_str(), key) {
            return Some(i);
        }
        i = i + 1;
    }
    None
}

fn owned_list(items: &[&str]) -> (r: Vec<String>)
    ensures
        r@.len() == items@.len(),
        forall|k: int| 0 <= k < items@.len() ==> #[trigger] r@[k]@ == items@[k]@,
{
    let mut out: Vec<String> = Vec::new();
    let mut k: usize = 0;
    while k < items.len()
        invariant
            k <= items@.len(),
            out@.len() == k,
            forall|q: int| 0 <= q < k ==> #[trigger] out@[q]@ == items@[q]@,
        decreases items@.len() - k,
    {
        out.push(items[k].to_owned());
        k = k + 1;
    }
    out
}

/// Tensor-name prefixes that stay F32 (mixed-precision quantization), from
/// the command-line arguments.
pub fn parse_keep_f32(args: &[String]) -> (r: Result<Vec<String>, QuantizeError>)
    ensures
        match keep_f32_spec(views(args@)) {
            Ok(l) => r matches Ok(v) && views(v@) == l,
            Err(e) => r == Err::<Vec<String>, QuantizeError>(e),
        },
{
    if let Some(pos) = find_arg(args, "--preset") {
        if pos >= args.len() - 1 {
            return Err(QuantizeError::MissingPresetName);
        }
        let name = args[pos + 1].as_str();
        if str_eq(name, "balanced") {
            let items: [&str; 5] = [
                "output_head",
                "pre_transformer_resblock",
                "transformer_stack.layers.17.",
                "transformer_stack.layers.18.",
                "transformer_stack.layers.19.",
            ];
            let v = owned_list(&items);
            assert(views(v@) =~= balanced_prefixes());
            return Ok(v);
        }
        if str_eq(name, "ultra") || str_eq(name, "high_accuracy") {
            let items: [&str; 7] = [
                "output_head",
                "pre_transformer_resblock",
                "transformer_stack.layers.15.",
                "transformer_stack.layers.16.",
                "transformer_stack.layers.17.",
                "transformer_stack.layers.18.",
                "transformer_stack.layers.19.",
            ];
            let v = owned_list(&items);
            assert(views(v@) =~= ultra_prefixes());
            return Ok(v);
        }
        return Err(QuantizeError::UnknownPreset);
    }
    if let Some(pos) = find_arg(args, "--keep-f32") {
        if pos >= args.len() - 1 {
            return Err(QuantizeError::MissingKeepList);
        }
        return Ok(split_keep_list(args[pos + 1].as_str()));
    }
    let v: Vec<String> = Vec::new();
    assert(views(v@) =~= Seq::<Seq<char>>::empty());
    Ok(v)
}

/// `p` is a prefix of `s`.
pub open spec fn has_prefix(s: Seq<char>, p: Seq<char>) -> bool {
    p.len() <= s.len() && s.subrange(0, p.len() as int) == p
}

/// `p` is a suffix of `s`.
pub open spec fn has_suffix(s: Seq<char>, p: Seq<char>) -> bool {
    p.len() <= s.len() && s.subrange(s.len() - p.len(), s.len() as int) == p
}

fn starts_with(s: &Vec<char>, p: &Vec<char>) -> (r: bool)
    ensures
        r == has_prefix(s@, p@),
{
    if p.len() > s.len() {
        return false;
    }
    let mut k: usize = 0;
    while k < p.len()
        invariant
            p@.len() <= s@.len(),
            k <= p@.len(),
            forall|q: int| 0 <= q < k ==> s@[q] == p@[q],
        decreases p@.len() - k,
    {
        if s[k] != p[k] {
            assert(s@.subrange(0, p@.len() as int)[k as int] != p@[k as int]);
            return false;
        }
        k = k + 1;
    }
    assert(s@.subrange(0, p@.len() as int) =~= p@);
    true
}

fn ends_with(s: &Vec<char>, p: &Vec<char>) -> (r: bool)
    ensures
        r == has_suffix(s@, p@),
{
    if p.len() > s.len() {
        return false;
    }
    let sl = s.len();
    let off = sl - p.len();
    let mut k: usize = 0;
    while k < p.len()
        invariant
            p@.len() <= s@.len(),
            sl == s@.len(),
            off == s@.len() - p@.len(),
            k <= p@.len(),
            forall|q: int| 0 <= q < k ==> s@[off + q] == p@[q],
        decreases p@.len() - k,
    {
        if s[off + k] != p[k] {
            assert(s@.subrange(off as int, s@.len() as int)[k as int] != p@[k as int]);
            return false;
        }
        k = k + 1;
    }
    assert(s@.subrange(off as int, s@.len() as int) =~= p@);
    true
}

/// A tensor is kept F32 by a prefix list when one of the prefixes starts
/// its name.
pub open spec fn kept_by(name: Seq<char>, keep: Seq<Seq<char>>) -> bool {
    exists|k: int| 0 <= k < keep.len() && has_prefix(name, #[trigger] keep[k])
}

/// Whether a tensor stays F32 because its name starts with one of `keep`.
pub fn keeps_f32(name: &str, keep: &[String]) -> (r: bool)
    ensures
        r == kept_by(name@, views(keep@)),
{
    let n = chars_of(name);
    let ghost ks = views(keep@);
    let mut k: usize = 0;
    while k < keep.len()
        invariant
            n@ == name@,
            ks == views(keep@),
            ks.len() == keep@.len(),
            k <= keep@.len(),
            forall|q: int| 0 <= q < k ==> !has_prefix(name@, #[trigger] ks[q]),
        decreases keep@.len() - k,
    {
        let p = chars_of(keep[k].as_str());
        if starts_with(&n, &p) {
            assert(ks[k as int] == keep@[k as int]@);
            return true;
        }
        assert(ks[k as int] == keep@[k as int]@);
        k = k + 1;
    }
    false
}

/// Whether a tensor is converted to F16: a 2-D `.weight` matrix that no
/// kept prefix names. Vectors (biases, norms, scales) always stay F32.
pub fn quantizes(name: &str, rank: usize, keep: &[String]) -> (r: bool)
    ensures
        r == (rank == 2 && has_suffix(name@, ".weight"@) && !kept_by(name@, views(keep@))),
{
    if rank != 2 {
        return false;
    }
    let n = chars_of(name);
    let w = chars_of(".weight");
    if !ends_with(&n, &w) {
        return false;
    }
    !keeps_f32(name, keep)
}

/// The `ultra` preset keeps F32 every tensor that `balanced` keeps F32: its
/// prefixes include all of `balanced`'s.
pub proof fn lemma_ultra_keeps_balanced(name: Seq<char>)
    ensures
        kept_by(name, balanced_prefixes()) ==> kept_by(name, ultra_prefixes()),
{
    if kept_by(name, balanced_prefixes()) {
        let k = choose|k: int| 0 <= k < balanced_prefixes().len() && has_prefix(name, #[trigger] balanced_prefixes()[k]);
        let j = if k < 2 { k } else { k + 2 };
        assert(ultra_prefixes()[j] == balanced_prefixes()[k]);
        assert(has_prefix(name, ultra_prefixes()[j]));
    }
}

} // verus!

verus! {

/// `pat` occurs in `s`.
pub open spec fn contains(s: Seq<char>, pat: Seq<char>) -> bool {
    exists|i: int| 0 <= i <= s.len() - pat.len() && #[trigger] s.subrange(i, i + pat.len()) == pat
}

/// The first index from `i` on holding `c`, or -1.
pub open spec fn index_of(s: Seq<char>, c: char, i: int) -> int
    decreases s.len() - i,
{
    if i < 0 || i >= s.len() {
        -1
    } else if s[i] == c {
        i
    } else {
        index_of(s, c, i + 1)
    }
}

/// The member that declares the precision, inserted after the opening brace.
pub open spec fn precision_member(p: QuantizationPrecision) -> Seq<char> {
    match p {
        QuantizationPrecision::F16 => "\n  \"precision\": \"f16\","@,
        QuantizationPrecision::F32 => "\n  \"precision\": \"f32\","@,
    }
}

/// A `config.json` text stamped with a precision: unchanged where it
/// already names a `"precision"` key or has no `{`, else the precision
/// member is inserted right after the first `{`.
pub open spec fn stamped(content: Seq<char>, p: QuantizationPrecision) -> Seq<char> {
    let i = index_of(content, '{', 0);
    if contains(content, "\"precision\""@) || i < 0 {
        content
    } else {
        content.subrange(0, i + 1) + precision_member(p) + content.subrange(i + 1, content.len() as int)
    }
}

pub fn contains_chars(s: &Vec<char>, pat: &Vec<char>) -> (r: bool)
    ensures
        r == contains(s@, pat@),
{
    if pat.len() > s.len() {
        return false;
    }
    if pat.len() == 0 {
        assert(s@.subrange(0, 0int + pat@.len()) =~= pat@);
        return true;
    }
    let sl = s.len();
    let last = sl - pat.len();
    let mut i: usize = 0;
    while i <= last
        invariant
            1 <= pat@.len() <= s@.len(),
            sl == s@.len(),
            last == s@.len() - pat@.len(),
            i <= last + 1,
            forall|q: int| 0 <= q < i ==> #[trigger] s@.subrange(q, q + pat@.len()) != pat@,
        decreases last + 1 - i,
    {
        let mut k: usize = 0;
        let mut same = true;
        while k < pat.len()
            invariant
                1 <= pat@.len() <= s@.len(),
                sl == s@.len(),
                i <= last,
                last == s@.len() - pat@.len(),
                k <= pat@.len(),
                same == (forall|q: int| 0 <= q < k ==> s@[i + q] == pat@[q]),
            decreases pat@.len() - k,
        {
            if s[i + k] != pat[k] {
                same = false;
            }
            k = k + 1;
        }
        if same {
            assert(s@.subrange(i as int, i + pat@.len()) =~= pat@);
            return true;
        }
        assert(s@.subrange(i as int, i + pat@.len()) != pat@) by {
            let q = choose|q: int| 0 <= q < pat@.len() && s@[i + q] != pat@[q];
            assert(s@.subrange(i as int, i + pat@.len())[q] != pat@[q]);
        }
        i = i + 1;
    }
    assert(!contains(s@, pat@)) by {
        if contains(s@, pat@) {
            let q = choose|q: int|
                0 <= q <= s@.len() - pat@.len() && #[trigger] s@.subrange(q, q + pat@.len()) == pat@;
            assert(s@.subrange(q, q + pat@.len()) != pat@);
        }
    }
    false
}

fn index_of_exec(s: &Vec<char>, c: char) -> (r: Option<usize>)
    ensures
        match r {
            Some(i) => i as int == index_of(s@, c, 0) && i < s@.len(),
            None => index_of(s@, c, 0) == -1,
        },
{
    let mut i: usize = 0;
    while i < s.len()
        invariant
            i <= s@.len(),
            index_of(s@, c, 0) == index_of(s@, c, i as int),
        decreases s@.len() - i,
    {
        if s[i] == c {
            return Some(i);
        }
        i = i + 1;
    }
    None
}

/// Stamps a `config.json` text with the precision of a quantized
/// checkpoint (see [`stamped`]).
pub fn stamp_precision(content: &str, p: QuantizationPrecision) -> (r: String)
    ensures
        r@ == stamped(content@, p),
{
    let cs = chars_of(content);
    let n = cs.len();
    let key = chars_of("\"precision\"");
    if contains_chars(&cs, &key) {
        return String::from_str(content);
    }
    match index_of_exec(&cs, '{') {
        None => String::from_str(content),
        Some(i) => {
            let mut out = String::from_str(content.substring_char(0, i + 1));
            match p {
                QuantizationPrecision::F16 => out.append("\n  \"precision\": \"f16\","),
                QuantizationPrecision::F32 => out.append("\n  \"precision\": \"f32\","),
            }
            out.append(content.substring_char(i + 1, n));
            out
        },
    }
}

/// Stamping is idempotent: a stamped text that had an opening brace names
/// the precision key, so stamping it again changes nothing.
pub proof fn lemma_stamp_idempotent(content: Seq<char>, p: QuantizationPrecision)
    ensures
        stamped(stamped(content, p), p) == stamped(content, p),
{
    let i = index_of(content, '{', 0);
    if !contains(content, "\"precision\""@) && i >= 0 {
        let s = stamped(content, p);
        let key = "\"precision\""@;
        reveal_strlit("\"precision\"");
        reveal_strlit("\n  \"precision\": \"f16\",");
        reveal_strlit("\n  \"precision\": \"f32\",");
        lemma_index_of(content, '{', 0);
        let at = i + 1 + 3;
        assert(s.subrange(at, at + key.len()) =~= key);
        assert(contains(s, key));
    }
}

proof fn lemma_index_of(s: Seq<char>, c: char, i: int)
    requires
        0 <= i,
    ensures
        index_of(s, c, i) == -1 || (i <= index_of(s, c, i) < s.len() && s[index_of(s, c, i)] == c),
    decreases s.len() - i,
{
    if i < s.len() && s[i] != c {
        lemma_index_of(s, c, i + 1);
    }
}

} // verus!

verus! {

/// Text made of decimal digits only.
pub open spec fn digit_text(l: Seq<char>) -> bool {
    forall|i: int| 0 <= i < l.len() ==> '0' <= #[trigger] l[i] && l[i] <= '9'
}

/// The name of a tensor `x` of transformer layer `l` (`l` the layer
/// number's decimal text).
pub open spec fn layer_tensor(l: Seq<char>, x: Seq<char>) -> Seq<char> {
    "transformer_stack.layers."@ + l + "."@ + x
}

/// A prefix of the form `transformer_stack.layers.1d.` starts the name of a
/// layer's tensor exactly when the layer number is `1d`.
proof fn lemma_layer_prefix(l: Seq<char>, x: Seq<char>, d: char, pre: Seq<char>)
    requires
        digit_text(l),
        '0' <= d <= '9',
        pre == "transformer_stack.layers."@ + seq!['1', d] + "."@,
    ensures
        has_prefix(layer_tensor(l, x), pre) <==> l == seq!['1', d],
{
    reveal_strlit("transformer_stack.layers.");
    reveal_strlit(".");
    let a = "transformer_stack.layers."@;
    let name = layer_tensor(l, x);
    assert(a.len() == 25);
    assert(pre.len() == 28);
    assert(name =~= a + (l + (seq!['.'] + x)));
    let tail = l + (seq!['.'] + x);
    assert forall|i: int| 0 <= i < tail.len() implies #[trigger] name[25 + i] == tail[i] by {}
    if l == seq!['1', d] {
        assert(name.subrange(0, 28) =~= pre);
    }
    if has_prefix(name, pre) {
        assert(name.subrange(0, 28)[25] == pre[25]);
        assert(name.subrange(0, 28)[26] == pre[26]);
        assert(name.subrange(0, 28)[27] == pre[27]);
        assert(name[25] == '1');
        assert(name[26] == d);
        assert(name[27] == '.');
        // The layer number reaches the first two places and stops there:
        // its characters are digits, the separator is not.
        if l.len() == 0 {
            assert(tail[0] == '.');
        } else if l.len() == 1 {
            assert(tail[1] == '.');
        } else if l.len() > 2 {
            assert(tail[2] == l[2]);
        }
        assert(l.len() == 2);
        assert(l[0] == tail[0]);
        assert(l[1] == tail[1]);
        assert(l =~= seq!['1', d]);
    }
}

/// A name that starts `transformer_stack` is not kept by the output head
/// or the pre-transformer block.
proof fn lemma_head_prefixes(l: Seq<char>, x: Seq<char>)
    ensures
        !has_prefix(layer_tensor(l, x), "output_head"@),
        !has_prefix(layer_tensor(l, x), "pre_transformer_resblock"@),
{
    reveal_strlit("transformer_stack.layers.");
    reveal_strlit(".");
    reveal_strlit("output_head");
    reveal_strlit("pre_transformer_resblock");
    let name = layer_tensor(l, x);
    assert(name[0] == 't');
    if has_prefix(name, "output_head"@) {
        assert(name.subrange(0, 11)[0] == 'o');
    }
    if has_prefix(name, "pre_transformer_resblock"@) {
        assert(name.subrange(0, 24)[0] == 'p');
    }
}

/// The `ultra` preset keeps exactly layers 15 to 19 of the transformer
/// stack: a tensor of layer `l` stays F32 if and only if `l` is one of
/// them, whatever the tensor.
pub proof fn lemma_ultra_layers(l: Seq<char>, x: Seq<char>)
    requires
        digit_text(l),
    ensures
        kept_by(layer_tensor(l, x), ultra_prefixes()) <==> (l == "15"@ || l == "16"@ || l == "17"@ || l == "18"@
            || l == "19"@),
{
    reveal_strlit("15");
    reveal_strlit("16");
    reveal_strlit("17");
    reveal_strlit("18");
    reveal_strlit("19");
    lemma_prefix_table();
    let u = ultra_prefixes();
    let name = layer_tensor(l, x);
    lemma_head_prefixes(l, x);
    lemma_layer_prefix(l, x, '5', u[2]);
    lemma_layer_prefix(l, x, '6', u[3]);
    lemma_layer_prefix(l, x, '7', u[4]);
    lemma_layer_prefix(l, x, '8', u[5]);
    lemma_layer_prefix(l, x, '9', u[6]);
    assert("15"@ =~= seq!['1', '5']);
    assert("16"@ =~= seq!['1', '6']);
    assert("17"@ =~= seq!['1', '7']);
    assert("18"@ =~= seq!['1', '8']);
    assert("19"@ =~= seq!['1', '9']);
    if kept_by(name, u) {
        let k = choose|k: int| 0 <= k < u.len() && has_prefix(name, #[trigger] u[k]);
        assert(k == 2 || k == 3 || k == 4 || k == 5 || k == 6);
    }
    if l == "15"@ {
        assert(has_prefix(name, u[2]));
    }
    if l == "16"@ {
        assert(has_prefix(name, u[3]));
    }
    if l == "17"@ {
        assert(has_prefix(name, u[4]));
    }
    if l == "18"@ {
        assert(has_prefix(name, u[5]));
    }
    if l == "19"@ {
        assert(has_prefix(name, u[6]));
    }
}

/// The `balanced` preset keeps exactly layers 17 to 19 of the transformer
/// stack.
pub proof fn lemma_balanced_layers(l: Seq<char>, x: Seq<char>)
    requires
        digit_text(l),
    ensures
        kept_by(layer_tensor(l, x), balanced_prefixes()) <==> (l == "17"@ || l == "18"@ || l == "19"@),
{
    reveal_strlit("17");
    reveal_strlit("18");
    reveal_strlit("19");
    lemma_prefix_table();
    let b = balanced_prefixes();
    let name = layer_tensor(l, x);
    lemma_head_prefixes(l, x);
    lemma_layer_prefix(l, x, '7', b[2]);
    lemma_layer_prefix(l, x, '8', b[3]);
    lemma_layer_prefix(l, x, '9', b[4]);
    assert("17"@ =~= seq!['1', '7']);
    assert("18"@ =~= seq!['1', '8']);
    assert("19"@ =~= seq!['1', '9']);
    if kept_by(name, b) {
        let k = choose|k: int| 0 <= k < b.len() && has_prefix(name, #[trigger] b[k]);
        assert(k == 2 || k == 3 || k == 4);
    }
    if l == "17"@ {
        assert(has_prefix(name, b[2]));
    }
    if l == "18"@ {
        assert(has_prefix(name, b[3]));
    }
    if l == "19"@ {
        assert(has_prefix(name, b[4]));
    }
}

/// Both presets keep the output head and the pre-transformer residual
/// block, every tensor of them.
pub proof fn lemma_presets_keep_heads(x: Seq<char>)
    ensures
        kept_by("output_head"@ + x, balanced_prefixes()),
        kept_by("pre_transformer_resblock"@ + x, balanced_prefixes()),
        kept_by("output_head"@ + x, ultra_prefixes()),
        kept_by("pre_transformer_resblock"@ + x, ultra_prefixes()),
{
    lemma_prefix_table();
    let b = balanced_prefixes();
    let u = ultra_prefixes();
    assert(("output_head"@ + x).subrange(0, "output_head"@.len() as int) =~= "output_head"@);
    assert(("pre_transformer_resblock"@ + x).subrange(0, "pre_transformer_resblock"@.len() as int)
        =~= "pre_transformer_resblock"@);
    assert(has_prefix("output_head"@ + x, b[0]));
    assert(has_prefix("pre_transformer_resblock"@ + x, b[1]));
    assert(has_prefix("output_head"@ + x, u[0]));
    assert(has_prefix("pre_transformer_resblock"@ + x, u[1]));
}

/// The entries of the preset tables, spelt out.
proof fn lemma_prefix_table()
    ensures
        ultra_prefixes()[0] == "output_head"@,
        ultra_prefixes()[1] == "pre_transformer_resblock"@,
        ultra_prefixes()[2] == "transformer_stack.layers."@ + seq!['1', '5'] + "."@,
        ultra_prefixes()[3] == "transformer_stack.layers."@ + seq!['1', '6'] + "."@,
        ultra_prefixes()[4] == "transformer_stack.layers."@ + seq!['1', '7'] + "."@,
        ultra_prefixes()[5] == "transformer_stack.layers."@ + seq!['1', '8'] + "."@,
        ultra_prefixes()[6] == "transformer_stack.layers."@ + seq!['1', '9'] + "."@,
        ultra_prefixes().len() == 7,
        balanced_prefixes()[0] == "output_head"@,
        balanced_prefixes()[1] == "pre_transformer_resblock"@,
        balanced_prefixes()[2] == "transformer_stack.layers."@ + seq!['1', '7'] + "."@,
        balanced_prefixes()[3] == "transformer_stack.layers."@ + seq!['1', '8'] + "."@,
        balanced_prefixes()[4] == "transformer_stack.layers."@ + seq!['1', '9'] + "."@,
        balanced_prefixes().len() == 5,
{
    reveal_strlit("transformer_stack.layers.");
    reveal_strlit(".");
    reveal_strlit("transformer_stack.layers.15.");
    reveal_strlit("transformer_stack.layers.16.");
    reveal_strlit("transformer_stack.layers.17.");
    reveal_strlit("transformer_stack.layers.18.");
    reveal_strlit("transformer_stack.layers.19.");
    assert("transformer_stack.layers.15."@ =~= "transformer_stack.layers."@ + seq!['1', '5'] + "."@);
    assert("transformer_stack.layers.16."@ =~= "transformer_stack.layers."@ + seq!['1', '6'] + "."@);
    assert("transformer_stack.layers.17."@ =~= "transformer_stack.layers."@ + seq!['1', '7'] + "."@);
    assert("transformer_stack.layers.18."@ =~= "transformer_stack.layers."@ + seq!['1', '8'] + "."@);
    assert("transformer_stack.layers.19."@ =~= "transformer_stack.layers."@ + seq!['1', '9'] + "."@);
}

/// A `--preset` argument decides the kept layers: `ultra` (or
/// `high_accuracy`) keeps exactly layers 15 to 19, `balanced` exactly
/// layers 17 to 19, and both keep the output head and the
/// pre-transformer block.
pub proof fn lemma_preset_keeps(args: Seq<Seq<char>>, l: Seq<char>, x: Seq<char>)
    requires
        digit_text(l),
        0 <= arg_index(args, "--preset"@, 0) < args.len() - 1,
    ensures
        ({
            let name = args[arg_index(args, "--preset"@, 0) + 1];
            let keep = keep_f32_spec(args)->Ok_0;
            &&& (name == "ultra"@ || name == "high_accuracy"@) ==> {
                &&& keep_f32_spec(args) is Ok
                &&& kept_by(layer_tensor(l, x), keep) <==> (l == "15"@ || l == "16"@ || l == "17"@ || l == "18"@
                    || l == "19"@)
                &&& kept_by("output_head"@ + x, keep)
                &&& kept_by("pre_transformer_resblock"@ + x, keep)
            }
            &&& name == "balanced"@ ==> {
                &&& keep_f32_spec(args) is Ok
                &&& kept_by(layer_tensor(l, x), keep) <==> (l == "17"@ || l == "18"@ || l == "19"@)
                &&& kept_by("output_head"@ + x, keep)
                &&& kept_by("pre_transformer_resblock"@ + x, keep)
            }
        }),
{
    lemma_ultra_layers(l, x);
    lemma_balanced_layers(l, x);
    lemma_presets_keep_heads(x);
    reveal_strlit("ultra");
    reveal_strlit("balanced");
    reveal_strlit("high_accuracy");
    let ps = arg_index(args, "--preset"@, 0);
    let name = args[ps + 1];
    if name == "ultra"@ || name == "high_accuracy"@ {
        assert(name != "balanced"@) by {
            if name == "ultra"@ {
                assert(name.len() != "balanced"@.len());
            } else {
                assert(name.len() != "balanced"@.len());
            }
        }
        assert(keep_f32_spec(args) == Ok::<Seq<Seq<char>>, QuantizeError>(ultra_prefixes()));
    }
    if name == "balanced"@ {
        assert(keep_f32_spec(args) == Ok::<Seq<Seq<char>>, QuantizeError>(balanced_prefixes()));
    }
}

} // verus!
