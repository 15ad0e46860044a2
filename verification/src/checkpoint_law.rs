//! What a written checkpoint reads back as.
//!
//! The header that [`encode_safetensors`](crate::checkpoint::encode_safetensors)
//! writes is the compact JSON layout of `json_print` applied to one object
//! member per tensor; parsing it (see [`parse_file`]) gives back every
//! tensor's dtype, shape and byte range, and the byte range holds exactly the
//! tensor's data.
use vstd::prelude::*;
use vstd::utf8::*;
use crate::checkpoint::{
    DType, TensorMeta, dtype_named, TensorView, all_writable, comma_space, data_concat, data_len_sum, dims_text,
    dtype_key, dtype_text, lemma_data_len_sum_prefix, entries_text, entry_text, file_text, header_tensors, header_text,
    le_bytes, le_value, offsets_key, pow256, parse_file, shape_key, tensor_bytes_spec, tensor_meta,
};
use crate::json::{JsonSpec, decimal, lookup};
use crate::json_print::{
    lemma_all_printable, lemma_all_printable_members, lemma_print_items_push, lemma_print_members_push, plain_text, print, print_items, print_members,
    printable, quoted,
};

verus! {

broadcast use {encode_utf8_valid_utf8, encode_utf8_decode_utf8};

/// The header spelling of a dtype, as characters.
pub open spec fn dtype_chars(d: DType) -> Seq<char> {
    match d {
        DType::F64 => "F64"@,
        DType::F32 => "F32"@,
        DType::F16 => "F16"@,
        DType::I64 => "I64"@,
        DType::I32 => "I32"@,
        DType::I16 => "I16"@,
        DType::I8 => "I8"@,
        DType::U8 => "U8"@,
        DType::U32 => "U32"@,
        DType::U64 => "U64"@,
        DType::Bool => "BOOL"@,
    }
}

/// ASCII characters encode to one byte each, their code.
proof fn lemma_ascii_encode(cs: Seq<char>)
    requires
        forall|k: int| 0 <= k < cs.len() ==> (#[trigger] cs[k] as u32) < 0x80,
    ensures
        encode_utf8(cs) == Seq::new(cs.len(), |k: int| (cs[k] as u32) as u8),
    decreases cs.len(),
{
    if cs.len() > 0 {
        let rest = cs.drop_first();
        assert forall|k: int| 0 <= k < rest.len() implies (#[trigger] rest[k] as u32) < 0x80 by {
            assert(rest[k] == cs[k + 1]);
        }
        lemma_ascii_encode(rest);
        let c = cs[0] as u32;
        assert(c < 0x80);
        assert((c & 0x7F) as u8 == c as u8) by (bit_vector)
            requires
                c < 0x80,
        ;
        assert(encode_scalar(c) == seq![c as u8]);
        assert(encode_utf8(cs) =~= Seq::new(cs.len(), |k: int| (cs[k] as u32) as u8));
    }
}

proof fn lemma_key_bytes()
    ensures
        encode_utf8("dtype"@) == seq![0x64u8, 0x74, 0x79, 0x70, 0x65],
        encode_utf8("shape"@) == seq![0x73u8, 0x68, 0x61, 0x70, 0x65],
        encode_utf8("data_offsets"@) == seq![
            0x64u8, 0x61, 0x74, 0x61, 0x5F, 0x6F, 0x66, 0x66, 0x73, 0x65, 0x74, 0x73,
        ],
        plain_text("dtype"@),
        plain_text("shape"@),
        plain_text("data_offsets"@),
        "dtype"@ != "shape"@,
        "dtype"@ != "data_offsets"@,
        "shape"@ != "data_offsets"@,
{
    reveal_strlit("dtype");
    reveal_strlit("shape");
    reveal_strlit("data_offsets");
    lemma_ascii_encode("dtype"@);
    lemma_ascii_encode("shape"@);
    lemma_ascii_encode("data_offsets"@);
    assert(encode_utf8("dtype"@) =~= seq![0x64u8, 0x74, 0x79, 0x70, 0x65]);
    assert(encode_utf8("shape"@) =~= seq![0x73u8, 0x68, 0x61, 0x70, 0x65]);
    assert(encode_utf8("data_offsets"@) =~= seq![
        0x64u8, 0x61, 0x74, 0x61, 0x5F, 0x6F, 0x66, 0x66, 0x73, 0x65, 0x74, 0x73,
    ]);
    assert("dtype"@[0] != "shape"@[0]);
    assert("dtype"@.len() != "data_offsets"@.len());
    assert("shape"@.len() != "data_offsets"@.len());
}

proof fn lemma_dtype_chars(d: DType)
    requires
        dtype_text(d) is Some,
    ensures
        encode_utf8(dtype_chars(d)) == dtype_text(d)->0,
        plain_text(dtype_chars(d)),
        dtype_named(dtype_chars(d)) == Some(d),
{
    reveal_strlit("F64");
    reveal_strlit("F32");
    reveal_strlit("F16");
    reveal_strlit("I64");
    reveal_strlit("I32");
    reveal_strlit("I16");
    reveal_strlit("I8");
    reveal_strlit("U8");
    reveal_strlit("U32");
    reveal_strlit("U64");
    reveal_strlit("BOOL");
    let cs = dtype_chars(d);
    lemma_ascii_encode(cs);
    assert(encode_utf8(cs) =~= dtype_text(d)->0);
}

/// Shape dimensions as JSON integers.
pub open spec fn dims_json(shape: Seq<usize>) -> Seq<JsonSpec> {
    Seq::new(shape.len(), |k: int| JsonSpec::Int(shape[k] as u64))
}

/// The header member value written for a tensor whose data starts at `start`.
pub open spec fn entry_json(t: TensorView, start: nat) -> JsonSpec {
    JsonSpec::Obj(
        seq![
            ("dtype"@, JsonSpec::Str(dtype_chars(t.dtype))),
            ("shape"@, JsonSpec::Arr(dims_json(t.shape@))),
            (
                "data_offsets"@,
                JsonSpec::Arr(
                    seq![JsonSpec::Int(start as u64), JsonSpec::Int((start + t.data@.len()) as u64)],
                ),
            ),
        ],
    )
}

proof fn lemma_dims_print(shape: Seq<usize>)
    ensures
        dims_text(shape) == print_items(dims_json(shape)),
    decreases shape.len(),
{
    if shape.len() == 1 {
        assert(print_items(dims_json(shape)) == print(JsonSpec::Int(shape[0] as u64)));
    } else if shape.len() >= 2 {
        let w = shape.drop_last();
        lemma_dims_print(w);
        assert(dims_json(shape) =~= dims_json(w).push(JsonSpec::Int(shape.last() as u64)));
        lemma_print_items_push(dims_json(w), JsonSpec::Int(shape.last() as u64));
    } else {
        assert(dims_json(shape) =~= Seq::<JsonSpec>::empty());
    }
}

/// The byte layout of one member, over its parts: `q` stands for a quote,
/// `c` for `": "`, `m` for `", "`, `ob`/`cb` for braces and `os`/`cs` for
/// square brackets.
proof fn lemma_entry_layout(
    q: Seq<u8>,
    c: Seq<u8>,
    m: Seq<u8>,
    ob: Seq<u8>,
    cb: Seq<u8>,
    os: Seq<u8>,
    cs: Seq<u8>,
    n: Seq<u8>,
    kd: Seq<u8>,
    dt: Seq<u8>,
    ks: Seq<u8>,
    d: Seq<u8>,
    ko: Seq<u8>,
    ds: Seq<u8>,
    de: Seq<u8>,
)
    ensures
        q + n + (q + c + ob + q + kd + q + c + q) + dt + (q + m + q + ks + q + c + os) + d + (cs + m + q
            + ko + q + c + os) + ds + m + de + (cs + cb) == (q + n + q) + c + (ob + ((q + kd + q) + c + (q
            + dt + q) + m + ((q + ks + q) + c + (os + d + cs) + m + ((q + ko + q) + c + (os + (ds + m
            + de) + cs)))) + cb),
{
    assert forall|x: Seq<u8>, y: Seq<u8>, z: Seq<u8>| #[trigger] (x + (y + z)) == (x + y) + z by {
        vstd::seq_lib::lemma_concat_associative(x, y, z);
    }
}

proof fn lemma_entry_print(t: TensorView, start: nat)
    requires
        dtype_text(t.dtype) is Some,
        start + t.data@.len() <= u64::MAX,
    ensures
        entry_text(t.name@, dtype_text(t.dtype)->0, t.shape@, start, start + t.data@.len())
            == quoted(t.name@) + seq![0x3Au8, 0x20] + print(entry_json(t, start)),
{
    let end = start + t.data@.len();
    let ms = match entry_json(t, start) {
        JsonSpec::Obj(ms) => ms,
        _ => Seq::empty(),
    };
    let v0 = JsonSpec::Str(dtype_chars(t.dtype));
    let v1 = JsonSpec::Arr(dims_json(t.shape@));
    let offs = seq![JsonSpec::Int(start as u64), JsonSpec::Int(end as u64)];
    let v2 = JsonSpec::Arr(offs);
    lemma_key_bytes();
    lemma_dtype_chars(t.dtype);
    lemma_dims_print(t.shape@);
    let dt = dtype_text(t.dtype)->0;
    let kd = encode_utf8("dtype"@);
    let ks = encode_utf8("shape"@);
    let ko = encode_utf8("data_offsets"@);
    assert(print(v0) == seq![0x22u8] + dt + seq![0x22u8]);
    assert(print(v1) == seq![0x5Bu8] + dims_text(t.shape@) + seq![0x5Du8]);
    assert(offs.drop_first() =~= seq![JsonSpec::Int(end as u64)]);
    assert(print(JsonSpec::Int(start as u64)) == decimal(start));
    assert(print(JsonSpec::Int(end as u64)) == decimal(end));
    assert(print_items(seq![JsonSpec::Int(end as u64)]) == decimal(end));
    assert(print_items(offs) == decimal(start) + seq![0x2Cu8, 0x20] + decimal(end));
    assert(print(v2) == seq![0x5Bu8] + (decimal(start) + seq![0x2Cu8, 0x20] + decimal(end)) + seq![0x5Du8]);
    let m2 = seq![("data_offsets"@, v2)];
    let m12 = seq![("shape"@, v1), ("data_offsets"@, v2)];
    assert(ms.drop_first() =~= m12);
    assert(m12.drop_first() =~= m2);
    assert(print_members(m2) == quoted("data_offsets"@) + seq![0x3Au8, 0x20] + print(v2));
    assert(print_members(m12) == quoted("shape"@) + seq![0x3Au8, 0x20] + print(v1) + seq![0x2Cu8, 0x20]
        + print_members(m2));
    assert(print_members(ms) == quoted("dtype"@) + seq![0x3Au8, 0x20] + print(v0) + seq![0x2Cu8, 0x20]
        + print_members(m12));
    let q = seq![0x22u8];
    let c = seq![0x3Au8, 0x20];
    let m = seq![0x2Cu8, 0x20];
    let ob = seq![0x7Bu8];
    let cb = seq![0x7Du8];
    let os = seq![0x5Bu8];
    let cs = seq![0x5Du8];
    assert(dtype_key() =~= q + c + ob + q + kd + q + c + q);
    assert(shape_key() =~= q + m + q + ks + q + c + os);
    assert(offsets_key() =~= cs + m + q + ko + q + c + os);
    assert(seq![0x5Du8, 0x7D] =~= cs + cb);
    lemma_entry_layout(
        q,
        c,
        m,
        ob,
        cb,
        os,
        cs,
        encode_utf8(t.name@),
        kd,
        dt,
        ks,
        dims_text(t.shape@),
        ko,
        decimal(start),
        decimal(end),
    );
}

/// The header members written for `ts`, in order.
pub open spec fn header_members(ts: Seq<TensorView>) -> Seq<(Seq<char>, JsonSpec)> {
    Seq::new(ts.len(), |k: int| (ts[k].name@, entry_json(ts[k], data_len_sum(ts.take(k)))))
}

/// The data of tensor `k` ends where that of tensor `k + 1` starts.
proof fn lemma_data_len_step(ts: Seq<TensorView>, k: int)
    requires
        0 <= k < ts.len(),
    ensures
        data_len_sum(ts.take(k + 1)) == data_len_sum(ts.take(k)) + (ts[k].data@.len() as int),
        data_len_sum(ts.take(k + 1)) <= data_len_sum(ts),
{
    assert(ts.take(k + 1).drop_last() =~= ts.take(k));
    lemma_data_len_sum_prefix(ts, (k + 1) as nat);
}

proof fn lemma_entries_print(ts: Seq<TensorView>, n: nat)
    requires
        all_writable(ts),
        data_len_sum(ts) <= u64::MAX,
        1 <= n <= ts.len(),
    ensures
        entries_text(ts, n) == print_members(header_members(ts).take(n as int)),
    decreases n,
{
    let k = n - 1;
    let t = ts[k];
    let start = data_len_sum(ts.take(k));
    lemma_data_len_step(ts, k);
    assert(dtype_text(t.dtype) is Some);
    lemma_entry_print(t, start);
    let hm = header_members(ts);
    if n == 1 {
        assert(hm.take(1) =~= seq![(t.name@, entry_json(t, start))]);
    } else {
        lemma_entries_print(ts, (n - 1) as nat);
        assert(hm.take(n as int) =~= hm.take(k).push((t.name@, entry_json(t, start))));
        lemma_print_members_push(hm.take(k), t.name@, entry_json(t, start));
    }
}

/// The written header is the printed object of the header members.
proof fn lemma_header_print(ts: Seq<TensorView>)
    requires
        all_writable(ts),
        data_len_sum(ts) <= u64::MAX,
    ensures
        header_text(ts) == print(JsonSpec::Obj(header_members(ts))),
{
    if ts.len() == 0 {
        assert(header_members(ts) =~= Seq::<(Seq<char>, JsonSpec)>::empty());
    } else {
        lemma_entries_print(ts, ts.len());
        assert(header_members(ts).take(ts.len() as int) =~= header_members(ts));
    }
}

proof fn lemma_header_printable(ts: Seq<TensorView>)
    requires
        all_writable(ts),
        forall|k: int| 0 <= k < ts.len() ==> plain_text(#[trigger] ts[k].name@),
    ensures
        printable(JsonSpec::Obj(header_members(ts))),
{
    let hm = header_members(ts);
    lemma_key_bytes();
    assert forall|k: int| 0 <= k < hm.len() implies plain_text(#[trigger] hm[k].0) && printable(hm[k].1) by {
        let t = ts[k];
        assert(dtype_text(t.dtype) is Some);
        lemma_dtype_chars(t.dtype);
        let dj = dims_json(t.shape@);
        assert forall|q: int| 0 <= q < dj.len() implies printable(#[trigger] dj[q]) by {}
        lemma_all_printable(dj);
        let start = data_len_sum(ts.take(k));
        let offs = seq![JsonSpec::Int(start as u64), JsonSpec::Int((start + t.data@.len()) as u64)];
        assert forall|q: int| 0 <= q < offs.len() implies printable(#[trigger] offs[q]) by {}
        lemma_all_printable(offs);
        let ms = seq![
            ("dtype"@, JsonSpec::Str(dtype_chars(t.dtype))),
            ("shape"@, JsonSpec::Arr(dj)),
            ("data_offsets"@, JsonSpec::Arr(offs)),
        ];
        assert forall|q: int| 0 <= q < ms.len() implies plain_text(#[trigger] ms[q].0) && printable(ms[q].1) by {}
        lemma_all_printable_members(ms);
        assert(entry_json(t, start) == JsonSpec::Obj(ms));
    }
    lemma_all_printable_members(hm);
}

/// The metadata that tensor `k` of `ts` is written with.
pub open spec fn written_meta(ts: Seq<TensorView>, k: int) -> TensorMeta {
    TensorMeta {
        dtype: ts[k].dtype,
        shape: ts[k].shape@,
        byte_offset: data_len_sum(ts.take(k)) as usize,
        byte_len: ts[k].data@.len() as usize,
    }
}

/// The tensors of the first `n` entries of `ts` by name (a later entry of
/// the same name replaces an earlier one).
pub open spec fn written_map(ts: Seq<TensorView>, n: nat) -> Map<Seq<char>, TensorMeta>
    decreases n,
{
    if n == 0 {
        Map::empty()
    } else {
        written_map(ts, (n - 1) as nat).insert(ts[n - 1].name@, written_meta(ts, n - 1))
    }
}

proof fn lemma_le_bytes(n: nat, w: nat)
    requires
        n < pow256(w),
    ensures
        le_bytes(n, w).len() == w,
        le_value(le_bytes(n, w)) == n,
    decreases w,
{
    if w == 0 {
    } else {
        let p = pow256((w - 1) as nat);
        assert(n / 256 < p) by (nonlinear_arith)
            requires
                n < 256 * p,
        ;
        lemma_le_bytes(n / 256, (w - 1) as nat);
        let b = le_bytes(n, w);
        assert(b.drop_first() =~= le_bytes(n / 256, (w - 1) as nat));
        assert(b[0] == n % 256);
    }
}

proof fn lemma_entry_meta(ts: Seq<TensorView>, k: int)
    requires
        0 <= k < ts.len(),
        all_writable(ts),
        data_len_sum(ts) <= usize::MAX,
    ensures
        tensor_meta(entry_json(ts[k], data_len_sum(ts.take(k)))) == Ok::<TensorMeta, crate::checkpoint::SafetensorsError>(
            written_meta(ts, k),
        ),
{
    let t = ts[k];
    let start = data_len_sum(ts.take(k));
    let end = start + t.data@.len();
    lemma_data_len_step(ts, k);
    assert(dtype_text(t.dtype) is Some);
    lemma_dtype_chars(t.dtype);
    lemma_key_bytes();
    let dj = dims_json(t.shape@);
    let offs = seq![JsonSpec::Int(start as u64), JsonSpec::Int(end as u64)];
    let ms = seq![
        ("dtype"@, JsonSpec::Str(dtype_chars(t.dtype))),
        ("shape"@, JsonSpec::Arr(dj)),
        ("data_offsets"@, JsonSpec::Arr(offs)),
    ];
    assert(entry_json(t, start) == JsonSpec::Obj(ms));
    assert(ms.drop_first().drop_first() =~= seq![("data_offsets"@, JsonSpec::Arr(offs))]);
    assert(lookup(ms, "dtype"@) == Some(JsonSpec::Str(dtype_chars(t.dtype))));
    assert(lookup(ms.drop_first(), "shape"@) == Some(JsonSpec::Arr(dj)));
    assert(lookup(ms, "shape"@) == Some(JsonSpec::Arr(dj)));
    assert(lookup(ms.drop_first().drop_first(), "data_offsets"@) == Some(JsonSpec::Arr(offs)));
    assert(lookup(ms.drop_first(), "data_offsets"@) == Some(JsonSpec::Arr(offs)));
    assert(lookup(ms, "data_offsets"@) == Some(JsonSpec::Arr(offs)));
    assert(crate::checkpoint::all_ints(dj));
    assert(Seq::new(dj.len(), |q: int| #[verifier::truncate] ((dj[q]->Int_0) as usize)) =~= t.shape@);
}

proof fn lemma_header_tensors(ts: Seq<TensorView>, k: int)
    requires
        0 <= k <= ts.len(),
        all_writable(ts),
        data_len_sum(ts) <= usize::MAX,
        forall|j: int| 0 <= j < ts.len() ==> #[trigger] ts[j].name@ != "__metadata__"@,
    ensures
        header_tensors(header_members(ts).subrange(k, ts.len() as int), written_map(ts, k as nat))
            == Ok::<Map<Seq<char>, TensorMeta>, crate::checkpoint::SafetensorsError>(
            written_map(ts, ts.len()),
        ),
    decreases ts.len() - k,
{
    let hm = header_members(ts);
    let rest = hm.subrange(k, ts.len() as int);
    if k < ts.len() {
        assert(rest[0] == hm[k]);
        assert(rest.drop_first() =~= hm.subrange(k + 1, ts.len() as int));
        assert(ts[k].name@ != "__metadata__"@);
        lemma_entry_meta(ts, k);
        lemma_header_tensors(ts, k + 1);
    } else {
        assert(rest =~= Seq::<(Seq<char>, JsonSpec)>::empty());
    }
}

proof fn lemma_data_concat(ts: Seq<TensorView>, n: nat)
    requires
        n <= ts.len(),
    ensures
        data_concat(ts, n).len() == data_len_sum(ts.take(n as int)),
        forall|k: int|
            0 <= k < n ==> data_concat(ts, n).subrange(
                data_len_sum(ts.take(k)) as int,
                data_len_sum(ts.take(k)) + (ts[k].data@.len() as int),
            ) == #[trigger] ts[k].data@,
    decreases n,
{
    if n > 0 {
        let k0 = n - 1;
        lemma_data_concat(ts, k0 as nat);
        lemma_data_len_step(ts, k0);
        let prev = data_concat(ts, k0 as nat);
        let all = data_concat(ts, n);
        assert forall|k: int| 0 <= k < n implies all.subrange(
            data_len_sum(ts.take(k)) as int,
            data_len_sum(ts.take(k)) + (ts[k].data@.len() as int),
        ) == #[trigger] ts[k].data@ by {
            if k < k0 {
                lemma_data_len_step(ts, k);
                lemma_data_len_sum_prefix(ts.take(k0), (k + 1) as nat);
                assert(ts.take(k0).take(k + 1) =~= ts.take(k + 1));
                assert(all.subrange(data_len_sum(ts.take(k)) as int, data_len_sum(ts.take(k)) + (ts[k].data@.len() as int))
                    =~= prev.subrange(data_len_sum(ts.take(k)) as int, data_len_sum(ts.take(k)) + (ts[k].data@.len() as int)));
            } else {
                assert(all.subrange(data_len_sum(ts.take(k)) as int, data_len_sum(ts.take(k)) + (ts[k].data@.len() as int))
                    =~= ts[k].data@);
            }
        }
    } else {
        assert(ts.take(0) =~= Seq::<TensorView>::empty());
    }
}

/// What the map of the first `n` entries holds: each name of them, with the
/// metadata of its last entry.
proof fn lemma_written_map(ts: Seq<TensorView>, n: nat)
    requires
        n <= ts.len(),
    ensures
        forall|name: Seq<char>|
            #[trigger] written_map(ts, n).contains_key(name) <==> exists|k: int|
                0 <= k < n && ts[k].name@ == name,
        forall|k: int|
            0 <= k < n && (forall|j: int| k < j < n ==> ts[j].name@ != ts[k].name@) ==> #[trigger] written_map(
                ts,
                n,
            )[ts[k].name@] == written_meta(ts, k),
    decreases n,
{
    if n > 0 {
        lemma_written_map(ts, (n - 1) as nat);
        assert forall|name: Seq<char>|
            #[trigger] written_map(ts, n).contains_key(name) <==> exists|k: int|
                0 <= k < n && ts[k].name@ == name by {
            if written_map(ts, n).contains_key(name) && name != ts[n - 1].name@ {
                assert(written_map(ts, (n - 1) as nat).contains_key(name));
            }
        }
    }
}

/// The header of a written file parses back to the written tensors.
proof fn lemma_roundtrip_parse(ts: Seq<TensorView>)
    requires
        all_writable(ts),
        file_text(ts).len() <= usize::MAX,
        forall|k: int|
            0 <= k < ts.len() ==> plain_text(#[trigger] ts[k].name@) && ts[k].name@ != "__metadata__"@,
    ensures
        parse_file(file_text(ts)) == Ok::<(Map<Seq<char>, TensorMeta>, int), crate::checkpoint::SafetensorsError>(
            (written_map(ts, ts.len()), 8 + (header_text(ts).len() as int)),
        ),
{
    let h = header_text(ts);
    let b = file_text(ts);
    let n = ts.len();
    lemma_data_concat(ts, n);
    assert(ts.take(n as int) =~= ts);
    assert(h.len() < pow256(8)) by {
        reveal_with_fuel(pow256, 9);
    }
    lemma_le_bytes(h.len(), 8);
    lemma_header_print(ts);
    assert forall|k: int| 0 <= k < ts.len() implies plain_text(#[trigger] ts[k].name@) by {}
    lemma_header_printable(ts);
    crate::json_print::lemma_print_document(JsonSpec::Obj(header_members(ts)));
    assert(b.take(8) =~= le_bytes(h.len(), 8));
    assert(b.subrange(8, 8 + (h.len() as int)) =~= h);
    assert forall|j: int| 0 <= j < ts.len() implies #[trigger] ts[j].name@ != "__metadata__"@ by {}
    lemma_header_tensors(ts, 0);
    assert(header_members(ts).subrange(0, n as int) =~= header_members(ts));
}

/// A slice of the third part of a concatenation.
proof fn lemma_concat_slice(a: Seq<u8>, h: Seq<u8>, d: Seq<u8>, lo: int, hi: int)
    requires
        0 <= lo <= hi <= d.len(),
    ensures
        (a + h + d).subrange(a.len() + h.len() + lo, a.len() + h.len() + hi) == d.subrange(lo, hi),
{
    assert((a + h + d).subrange(a.len() + h.len() + lo, a.len() + h.len() + hi) =~= d.subrange(lo, hi));
}

/// The byte range written for tensor `k` holds its data.
#[verifier::spinoff_prover]
proof fn lemma_roundtrip_bytes(ts: Seq<TensorView>, k: int)
    requires
        0 <= k < ts.len(),
        file_text(ts).len() <= usize::MAX,
    ensures
        tensor_bytes_spec(file_text(ts), 8 + (header_text(ts).len() as int), written_meta(ts, k))
            == Some(ts[k].data@),
{
    let h = header_text(ts);
    let n = ts.len();
    let dc = data_concat(ts, n);
    let le = le_bytes(h.len(), 8);
    assert(file_text(ts) == le + h + dc);
    lemma_data_concat(ts, n);
    assert(ts.take(n as int) =~= ts);
    lemma_data_len_step(ts, k);
    let start = data_len_sum(ts.take(k)) as int;
    let len = ts[k].data@.len() as int;
    assert(h.len() < pow256(8)) by {
        reveal_with_fuel(pow256, 9);
    }
    lemma_le_bytes(h.len(), 8);
    lemma_concat_slice(le, h, dc, start, start + len);
}

/// The safetensors round trip. The bytes written for `ts` parse back: the
/// header ends where the data section starts, every written name is found,
/// and the last tensor written under a name is read back with its dtype,
/// shape and offsets, and with exactly the bytes it was written with.
///
/// Names must need no JSON escapes and differ from `__metadata__` (a member
/// of that name is ignored on reading), and the file must fit in memory.
pub proof fn lemma_safetensors_roundtrip(ts: Seq<TensorView>)
    requires
        all_writable(ts),
        file_text(ts).len() <= usize::MAX,
        forall|k: int|
            0 <= k < ts.len() ==> plain_text(#[trigger] ts[k].name@) && ts[k].name@ != "__metadata__"@,
    ensures
        parse_file(file_text(ts)) == Ok::<(Map<Seq<char>, TensorMeta>, int), crate::checkpoint::SafetensorsError>(
            (written_map(ts, ts.len()), 8 + (header_text(ts).len() as int)),
        ),
        forall|name: Seq<char>|
            #[trigger] written_map(ts, ts.len()).contains_key(name) <==> exists|k: int|
                0 <= k < ts.len() && ts[k].name@ == name,
        forall|k: int|
            0 <= k < ts.len() && (forall|j: int| k < j < ts.len() ==> ts[j].name@ != ts[k].name@) ==> {
                &&& #[trigger] written_map(ts, ts.len())[ts[k].name@] == written_meta(ts, k)
                &&& tensor_bytes_spec(file_text(ts), 8 + (header_text(ts).len() as int), written_meta(ts, k))
                    == Some(ts[k].data@)
            },
{
    lemma_roundtrip_parse(ts);
    lemma_written_map(ts, ts.len());
    assert forall|k: int|
        0 <= k < ts.len() && (forall|j: int| k < j < ts.len() ==> ts[j].name@ != ts[k].name@) implies {
            &&& #[trigger] written_map(ts, ts.len())[ts[k].name@] == written_meta(ts, k)
            &&& tensor_bytes_spec(file_text(ts), 8 + (header_text(ts).len() as int), written_meta(ts, k))
                == Some(ts[k].data@)
        } by {
        lemma_roundtrip_bytes(ts, k);
    }
}

} // verus!
