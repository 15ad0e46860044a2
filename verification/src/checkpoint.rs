//! safetensors checkpoints.
//!
//! Format: 8-byte little-endian header length, then a JSON header mapping
//! tensor names to `{dtype, shape, data_offsets}`, then raw tensor bytes.
//! Tensor byte offsets are relative to the start of the data section. A
//! `__metadata__` member of the header is ignored.
use vstd::prelude::*;
use crate::json::{Json, JsonError, JsonSpec, decimal, document, json_obj_view, json_seq_view, json_view, lemma_obj_view_index, lemma_seq_view_index, lookup, obj_get};
use crate::text::str_eq;
use vstd::utf8::encode_utf8;

verus! {

/// safetensors dtype strings.
#[derive(Debug, Clone, Copy, PartialEq, Eq, Structural)]
pub enum DType {
    F64,
    F32,
    F16,
    I64,
    I32,
    I16,
    I8,
    U8,
    U32,
    U64,
    Bool,
}

/// The dtype a header string names.
pub open spec fn dtype_named(s: Seq<char>) -> Option<DType> {
    if s == "F64"@ {
        Some(DType::F64)
    } else if s == "F32"@ {
        Some(DType::F32)
    } else if s == "F16"@ {
        Some(DType::F16)
    } else if s == "I64"@ {
        Some(DType::I64)
    } else if s == "I32"@ {
        Some(DType::I32)
    } else if s == "I16"@ {
        Some(DType::I16)
    } else if s == "I8"@ {
        Some(DType::I8)
    } else if s == "U8"@ {
        Some(DType::U8)
    } else if s == "U32"@ {
        Some(DType::U32)
    } else if s == "U64"@ {
        Some(DType::U64)
    } else if s == "BOOL"@ {
        Some(DType::Bool)
    } else {
        None
    }
}

impl DType {
    pub fn parse(s: &str) -> (r: Option<DType>)
        ensures
            r == dtype_named(s@),
    {
        if str_eq(s, "F64") {
            Some(DType::F64)
        } else if str_eq(s, "F32") {
            Some(DType::F32)
        } else if str_eq(s, "F16") {
            Some(DType::F16)
        } else if str_eq(s, "I64") {
            Some(DType::I64)
        } else if str_eq(s, "I32") {
            Some(DType::I32)
        } else if str_eq(s, "I16") {
            Some(DType::I16)
        } else if str_eq(s, "I8") {
            Some(DType::I8)
        } else if str_eq(s, "U8") {
            Some(DType::U8)
        } else if str_eq(s, "U32") {
            Some(DType::U32)
        } else if str_eq(s, "U64") {
            Some(DType::U64)
        } else if str_eq(s, "BOOL") {
            Some(DType::Bool)
        } else {
            None
        }
    }
}

/// Metadata for one tensor in the file.
#[derive(Debug)]
pub struct TensorInfo {
    pub dtype: DType,
    pub shape: Vec<usize>,
    /// Byte offset relative to the start of the data section.
    pub byte_offset: usize,
    pub byte_len: usize,
}

/// Model of [`TensorInfo`].
pub struct TensorMeta {
    pub dtype: DType,
    pub shape: Seq<usize>,
    pub byte_offset: usize,
    pub byte_len: usize,
}

impl View for TensorInfo {
    type V = TensorMeta;

    open spec fn view(&self) -> TensorMeta {
        TensorMeta {
            dtype: self.dtype,
            shape: self.shape@,
            byte_offset: self.byte_offset,
            byte_len: self.byte_len,
        }
    }
}

/// Why a checkpoint was rejected or a tensor could not be read.
#[derive(Debug, Clone, Copy, PartialEq, Eq, Structural)]
pub enum SafetensorsError {
    /// The file is shorter than the 8-byte header length.
    FileTooShort,
    /// 8 + header length overflows `usize`.
    HeaderLengthOverflow,
    /// The header extends past the end of the file.
    HeaderTooLong,
    /// The header is not valid JSON.
    Json(JsonError),
    HeaderNotObject,
    MetadataNotObject,
    MissingDtype,
    DtypeNotString,
    UnknownDtype,
    MissingShape,
    ShapeNotArray,
    ShapeNonInteger,
    MissingDataOffsets,
    DataOffsetsNotArray,
    DataOffsetsCount,
    BadOffset,
    OffsetsReversed,
    /// No tensor of that name.
    NoTensor,
    /// The tensor's dtype does not suit the request.
    WrongDtype,
    /// The tensor is not a matrix.
    NotRank2,
    /// The tensor's bytes lie outside the data section.
    DataOutOfRange,
    /// The tensor's byte length is not a whole number of elements.
    BadByteLength,
    /// The dtype cannot be written.
    UnsupportedDtype,
}

// ---------------------------------------------------------------------------
// Header model
// ---------------------------------------------------------------------------

/// Little-endian value of a byte string.
pub open spec fn le_value(b: Seq<u8>) -> nat
    decreases b.len(),
{
    if b.len() == 0 {
        0
    } else {
        b[0] as nat + 256 * le_value(b.drop_first())
    }
}

pub open spec fn dtype_field(m: Seq<(Seq<char>, JsonSpec)>) -> Result<DType, SafetensorsError> {
    match lookup(m, "dtype"@) {
        None => Err(SafetensorsError::MissingDtype),
        Some(JsonSpec::Str(ds)) => match dtype_named(ds) {
            Some(d) => Ok(d),
            None => Err(SafetensorsError::UnknownDtype),
        },
        Some(_) => Err(SafetensorsError::DtypeNotString),
    }
}

pub open spec fn all_ints(a: Seq<JsonSpec>) -> bool {
    forall|k: int| 0 <= k < a.len() ==> #[trigger] a[k] is Int
}

pub open spec fn shape_field(m: Seq<(Seq<char>, JsonSpec)>) -> Result<Seq<usize>, SafetensorsError> {
    match lookup(m, "shape"@) {
        None => Err(SafetensorsError::MissingShape),
        Some(JsonSpec::Arr(a)) => if all_ints(a) {
            Ok(Seq::new(a.len(), |k: int| #[verifier::truncate] ((a[k]->Int_0) as usize)))
        } else {
            Err(SafetensorsError::ShapeNonInteger)
        },
        Some(_) => Err(SafetensorsError::ShapeNotArray),
    }
}

/// `(start, end)` from `data_offsets`.
pub open spec fn offsets_field(m: Seq<(Seq<char>, JsonSpec)>) -> Result<(usize, usize), SafetensorsError> {
    match lookup(m, "data_offsets"@) {
        None => Err(SafetensorsError::MissingDataOffsets),
        Some(JsonSpec::Arr(a)) => if a.len() != 2 {
            Err(SafetensorsError::DataOffsetsCount)
        } else if !(a[0] is Int) || !(a[1] is Int) {
            Err(SafetensorsError::BadOffset)
        } else {
            let start = #[verifier::truncate] ((a[0]->Int_0) as usize);
            let end = #[verifier::truncate] ((a[1]->Int_0) as usize);
            if end < start {
                Err(SafetensorsError::OffsetsReversed)
            } else {
                Ok((start, end))
            }
        },
        Some(_) => Err(SafetensorsError::DataOffsetsNotArray),
    }
}

/// The metadata one header member describes.
pub open spec fn tensor_meta(v: JsonSpec) -> Result<TensorMeta, SafetensorsError> {
    match v {
        JsonSpec::Obj(m) => match dtype_field(m) {
            Err(e) => Err(e),
            Ok(dtype) => match shape_field(m) {
                Err(e) => Err(e),
                Ok(shape) => match offsets_field(m) {
                    Err(e) => Err(e),
                    Ok((start, end)) => Ok(
                        TensorMeta {
                            dtype,
                            shape,
                            byte_offset: start,
                            byte_len: (end - start) as usize,
                        },
                    ),
                },
            },
        },
        _ => Err(SafetensorsError::MetadataNotObject),
    }
}

/// Adds the tensors of `members` to `acc`, in order (a later member of the
/// same name replaces an earlier one); `__metadata__` is skipped.
pub open spec fn header_tensors(
    members: Seq<(Seq<char>, JsonSpec)>,
    acc: Map<Seq<char>, TensorMeta>,
) -> Result<Map<Seq<char>, TensorMeta>, SafetensorsError>
    decreases members.len(),
{
    if members.len() == 0 {
        Ok(acc)
    } else if members[0].0 == "__metadata__"@ {
        header_tensors(members.drop_first(), acc)
    } else {
        match tensor_meta(members[0].1) {
            Err(e) => Err(e),
            Ok(meta) => header_tensors(members.drop_first(), acc.insert(members[0].0, meta)),
        }
    }
}

/// The tensors of a safetensors file and the offset of its data section.
pub open spec fn parse_file(b: Seq<u8>) -> Result<(Map<Seq<char>, TensorMeta>, int), SafetensorsError> {
    if b.len() < 8 {
        Err(SafetensorsError::FileTooShort)
    } else {
        let header_len = (le_value(b.take(8)) as u64) as usize;
        let header_end = 8 + header_len;
        if header_end > usize::MAX {
            Err(SafetensorsError::HeaderLengthOverflow)
        } else if header_end > b.len() {
            Err(SafetensorsError::HeaderTooLong)
        } else {
            match document(b.subrange(8, header_end)) {
                Err(e) => Err(SafetensorsError::Json(e)),
                Ok(JsonSpec::Obj(m)) => match header_tensors(m, Map::empty()) {
                    Err(e) => Err(e),
                    Ok(t) => Ok((t, header_end)),
                },
                Ok(_) => Err(SafetensorsError::HeaderNotObject),
            }
        }
    }
}

// ---------------------------------------------------------------------------
// Tensor table
// ---------------------------------------------------------------------------

/// The map that a table of named entries stands for.
pub open spec fn table_map(v: Seq<(String, TensorInfo)>) -> Map<Seq<char>, TensorMeta>
    decreases v.len(),
{
    if v.len() == 0 {
        Map::empty()
    } else {
        table_map(v.drop_last()).insert(v.last().0@, v.last().1@)
    }
}

pub open spec fn names_unique(v: Seq<(String, TensorInfo)>) -> bool {
    forall|i: int, j: int| 0 <= i < j < v.len() ==> v[i].0@ != v[j].0@
}

pub(crate) proof fn lemma_table_map(v: Seq<(String, TensorInfo)>)
    requires
        names_unique(v),
    ensures
        forall|k: Seq<char>|
            table_map(v).contains_key(k) <==> exists|i: int| 0 <= i < v.len() && v[i].0@ == k,
        forall|i: int| 0 <= i < v.len() ==> #[trigger] table_map(v)[v[i].0@] == v[i].1@,
        table_map(v).dom().finite(),
        table_map(v).dom().len() == v.len(),
    decreases v.len(),
{
    if v.len() > 0 {
        let w = v.drop_last();
        assert(names_unique(w));
        lemma_table_map(w);
        let last = v.last();
        assert(!table_map(w).contains_key(last.0@)) by {
            if table_map(w).contains_key(last.0@) {
                let i = choose|i: int| 0 <= i < w.len() && w[i].0@ == last.0@;
                assert(v[i].0@ == v[v.len() - 1].0@);
            }
        }
        assert forall|k: Seq<char>|
            table_map(v).contains_key(k) <==> exists|i: int| 0 <= i < v.len() && v[i].0@ == k by {
            if table_map(v).contains_key(k) && k != last.0@ {
                let i = choose|i: int| 0 <= i < w.len() && w[i].0@ == k;
                assert(v[i] == w[i]);
            }
            if exists|i: int| 0 <= i < v.len() && v[i].0@ == k {
                let i = choose|i: int| 0 <= i < v.len() && v[i].0@ == k;
                if i < v.len() - 1 {
                    assert(w[i] == v[i]);
                }
            }
        }
        assert forall|i: int| 0 <= i < v.len() implies #[trigger] table_map(v)[v[i].0@] == v[i].1@ by {
            if i < v.len() - 1 {
                assert(w[i] == v[i]);
                assert(v[i].0@ != last.0@);
            }
        }
    }
}

/// Replacing the entry of an existing name updates the map at that name.
pub(crate) proof fn lemma_table_map_update(v: Seq<(String, TensorInfo)>, i: int, x: (String, TensorInfo))
    requires
        names_unique(v),
        0 <= i < v.len(),
        x.0@ == v[i].0@,
    ensures
        names_unique(v.update(i, x)),
        table_map(v.update(i, x)) == table_map(v).insert(x.0@, x.1@),
    decreases v.len(),
{
    let u = v.update(i, x);
    assert(names_unique(u)) by {
        assert forall|a: int, b: int| 0 <= a < b < u.len() implies u[a].0@ != u[b].0@ by {
            assert(v[a].0@ != v[b].0@);
        }
    }
    if i == v.len() - 1 {
        assert(u.drop_last() =~= v.drop_last());
    } else {
        let w = v.drop_last();
        assert(names_unique(w));
        lemma_table_map_update(w, i, x);
        assert(u.drop_last() =~= w.update(i, x));
        assert(x.0@ != v.last().0@);
        assert(table_map(u) =~= table_map(v).insert(x.0@, x.1@));
    }
}

/// A parsed safetensors file.
pub struct Safetensors {
    tensors: Vec<(String, TensorInfo)>,
    storage: Vec<u8>,
    data_offset: usize,
}

impl Safetensors {
    /// The tensors by name.
    pub closed spec fn tensor_map(&self) -> Map<Seq<char>, TensorMeta> {
        table_map(self.tensors@)
    }

    /// The bytes of the whole file.
    pub closed spec fn file_bytes(&self) -> Seq<u8> {
        self.storage@
    }

    /// Where the data section starts in the file.
    pub closed spec fn data_start(&self) -> int {
        self.data_offset as int
    }

    #[verifier::type_invariant]
    closed spec fn wf(&self) -> bool {
        &&& names_unique(self.tensors@)
        &&& self.data_offset <= self.storage@.len()
    }

    /// Parses from owned in-memory bytes.
    pub fn from_owned_bytes(bytes: Vec<u8>) -> (r: Result<Safetensors, SafetensorsError>)
        ensures
            match parse_file(bytes@) {
                Ok((m, off)) => r matches Ok(st) && st.tensor_map() == m
                    && st.file_bytes() == bytes@ && st.data_start() == off,
                Err(e) => r == Err::<Safetensors, SafetensorsError>(e),
            },
    {
        let n = bytes.len();
        if n < 8 {
            return Err(SafetensorsError::FileTooShort);
        }
        let mut hl: u64 = 0;
        let mut k: usize = 8;
        proof {
            lemma_le_value_bound(bytes@.subrange(8, 8));
            assert(bytes@.subrange(8, 8) =~= Seq::<u8>::empty());
        }
        while k > 0
            invariant
                k <= 8 <= bytes@.len(),
                hl as nat == le_value(bytes@.subrange(k as int, 8)),
            decreases k,
        {
            let ghost tail = bytes@.subrange(k as int, 8);
            let ghost next = bytes@.subrange(k - 1, 8);
            assert(next.drop_first() =~= tail);
            proof {
                lemma_le_value_bound(next);
                lemma_pow256_le8((8 - k + 1) as nat);
            }
            hl = hl * 256 + bytes[k - 1] as u64;
            k = k - 1;
        }
        assert(bytes@.subrange(0, 8) =~= bytes@.take(8));
        let header_len = hl as usize;
        let header_end = match 8usize.checked_add(header_len) {
            Some(e) => e,
            None => {
                return Err(SafetensorsError::HeaderLengthOverflow);
            },
        };
        if header_end > n {
            return Err(SafetensorsError::HeaderTooLong);
        }
        let root = match Json::parse(&bytes.as_slice()[8..header_end]) {
            Ok(j) => j,
            Err(e) => {
                return Err(SafetensorsError::Json(e));
            },
        };
        let obj = match root.as_obj() {
            Some(o) => o,
            None => {
                return Err(SafetensorsError::HeaderNotObject);
            },
        };
        let tensors = match collect_tensors(obj) {
            Ok(t) => t,
            Err(e) => {
                return Err(e);
            },
        };
        Ok(Safetensors { tensors, storage: bytes, data_offset: header_end })
    }

    /// Parses from in-memory bytes (copied).
    pub fn parse_bytes(bytes: &[u8]) -> (r: Result<Safetensors, SafetensorsError>)
        ensures
            match parse_file(bytes@) {
                Ok((m, off)) => r matches Ok(st) && st.tensor_map() == m
                    && st.file_bytes() == bytes@ && st.data_start() == off,
                Err(e) => r == Err::<Safetensors, SafetensorsError>(e),
            },
    {
        let v = vstd::slice::slice_to_vec(bytes);
        Safetensors::from_owned_bytes(v)
    }
}

/// The elements of a tensor as little-endian words of `width` bytes.
pub enum TensorWords {
    /// 4-byte elements (F32 bit patterns).
    W32(Vec<u32>),
    /// 2-byte elements (F16 bit patterns).
    W16(Vec<u16>),
}

/// Little-endian words of `width` bytes.
pub open spec fn le_words(raw: Seq<u8>, width: nat) -> Seq<nat> {
    Seq::new(raw.len() / width, |k: int| le_value(raw.subrange(k * width, k * width + width)))
}

/// The bytes of a tensor inside the file, if they lie in the data section.
pub open spec fn tensor_bytes_spec(file: Seq<u8>, data_start: int, meta: TensorMeta) -> Option<Seq<u8>> {
    let lo = data_start + meta.byte_offset;
    let hi = lo + meta.byte_len;
    if hi <= file.len() {
        Some(file.subrange(lo, hi))
    } else {
        None
    }
}

impl Safetensors {
    /// Number of tensors in the file.
    pub fn len(&self) -> (r: usize)
        ensures
            r == self.tensor_map().dom().len(),
    {
        proof {
            use_type_invariant(self);
            lemma_table_map(self.tensors@);
        }
        self.tensors.len()
    }

    pub fn is_empty(&self) -> (r: bool)
        ensures
            r == (self.tensor_map().dom().len() == 0),
    {
        proof {
            use_type_invariant(self);
            lemma_table_map(self.tensors@);
        }
        self.tensors.len() == 0
    }

    pub fn tensor_info(&self, name: &str) -> (r: Option<&TensorInfo>)
        ensures
            r is Some <==> self.tensor_map().contains_key(name@),
            r matches Some(i) ==> i@ == self.tensor_map()[name@],
    {
        proof {
            use_type_invariant(self);
            lemma_table_map(self.tensors@);
        }
        match find_name(&self.tensors, name) {
            Some(i) => Some(&self.tensors[i].1),
            None => None,
        }
    }

    /// The tensor table: every name once, with its metadata (in header order).
    pub fn iter(&self) -> (r: &[(String, TensorInfo)])
        ensures
            names_unique(r@),
            table_map(r@) == self.tensor_map(),
    {
        proof {
            use_type_invariant(self);
        }
        self.tensors.as_slice()
    }

    /// Rows and columns of a matrix stored as F32 or F16.
    pub fn f32_matrix_shape(&self, name: &str) -> (r: Result<(usize, usize), SafetensorsError>)
        ensures
            r == matrix_shape_spec(self.tensor_map(), name@, false),
    {
        self.matrix_shape(name, false)
    }

    /// Rows and columns of a matrix stored as F16.
    pub fn f16_matrix_shape(&self, name: &str) -> (r: Result<(usize, usize), SafetensorsError>)
        ensures
            r == matrix_shape_spec(self.tensor_map(), name@, true),
    {
        self.matrix_shape(name, true)
    }

    fn matrix_shape(&self, name: &str, f16_only: bool) -> (r: Result<(usize, usize), SafetensorsError>)
        ensures
            r == matrix_shape_spec(self.tensor_map(), name@, f16_only),
    {
        let info = match self.tensor_info(name) {
            Some(i) => i,
            None => {
                return Err(SafetensorsError::NoTensor);
            },
        };
        let ok_dtype = if f16_only {
            info.dtype == DType::F16
        } else {
            info.dtype == DType::F32 || info.dtype == DType::F16
        };
        if !ok_dtype {
            return Err(SafetensorsError::WrongDtype);
        }
        if info.shape.len() != 2 {
            return Err(SafetensorsError::NotRank2);
        }
        Ok((info.shape[0], info.shape[1]))
    }

    /// The raw bytes of a tensor.
    pub fn tensor_bytes(&self, name: &str) -> (r: Result<&[u8], SafetensorsError>)
        ensures
            match self.tensor_map().contains_key(name@) {
                false => r == Err::<&[u8], SafetensorsError>(SafetensorsError::NoTensor),
                true => match tensor_bytes_spec(self.file_bytes(), self.data_start(), self.tensor_map()[name@]) {
                    Some(raw) => r matches Ok(b) && b@ == raw,
                    None => r == Err::<&[u8], SafetensorsError>(SafetensorsError::DataOutOfRange),
                },
            },
    {
        proof {
            use_type_invariant(self);
        }
        let info = match self.tensor_info(name) {
            Some(i) => i,
            None => {
                return Err(SafetensorsError::NoTensor);
            },
        };
        let room = self.storage.len() - self.data_offset;
        if info.byte_offset > room || info.byte_len > room - info.byte_offset {
            return Err(SafetensorsError::DataOutOfRange);
        }
        let lo = self.data_offset + info.byte_offset;
        let hi = lo + info.byte_len;
        Ok(&self.storage.as_slice()[lo..hi])
    }

    /// The elements of an F32 or F16 tensor as little-endian bit patterns.
    pub fn tensor_words(&self, name: &str) -> (r: Result<TensorWords, SafetensorsError>)
        ensures
            match self.tensor_map().contains_key(name@) {
                false => r == Err::<TensorWords, SafetensorsError>(SafetensorsError::NoTensor),
                true => {
                    let meta = self.tensor_map()[name@];
                    match tensor_bytes_spec(self.file_bytes(), self.data_start(), meta) {
                        None => r == Err::<TensorWords, SafetensorsError>(SafetensorsError::DataOutOfRange),
                        Some(raw) => if meta.dtype == DType::F32 {
                            if raw.len() % 4 != 0 {
                                r == Err::<TensorWords, SafetensorsError>(SafetensorsError::BadByteLength)
                            } else {
                                r matches Ok(TensorWords::W32(w)) && w@.map_values(|x: u32| x as nat) == le_words(raw, 4)
                            }
                        } else if meta.dtype == DType::F16 {
                            if raw.len() % 2 != 0 {
                                r == Err::<TensorWords, SafetensorsError>(SafetensorsError::BadByteLength)
                            } else {
                                r matches Ok(TensorWords::W16(w)) && w@.map_values(|x: u16| x as nat) == le_words(raw, 2)
                            }
                        } else {
                            r == Err::<TensorWords, SafetensorsError>(SafetensorsError::WrongDtype)
                        },
                    }
                },
            },
    {
        let raw = match self.tensor_bytes(name) {
            Ok(b) => b,
            Err(e) => {
                return Err(e);
            },
        };
        let info = match self.tensor_info(name) {
            Some(i) => i,
            None => {
                return Err(SafetensorsError::NoTensor);
            },
        };
        if info.dtype == DType::F32 {
            if raw.len() % 4 != 0 {
                return Err(SafetensorsError::BadByteLength);
            }
            Ok(TensorWords::W32(le_u32_words(raw)))
        } else if info.dtype == DType::F16 {
            if raw.len() % 2 != 0 {
                return Err(SafetensorsError::BadByteLength);
            }
            Ok(TensorWords::W16(le_u16_words(raw)))
        } else {
            Err(SafetensorsError::WrongDtype)
        }
    }
}

/// Shape check of a matrix read.
pub open spec fn matrix_shape_spec(m: Map<Seq<char>, TensorMeta>, name: Seq<char>, f16_only: bool) -> Result<
    (usize, usize),
    SafetensorsError,
> {
    if !m.contains_key(name) {
        Err(SafetensorsError::NoTensor)
    } else {
        let meta = m[name];
        let ok = if f16_only {
            meta.dtype == DType::F16
        } else {
            meta.dtype == DType::F32 || meta.dtype == DType::F16
        };
        if !ok {
            Err(SafetensorsError::WrongDtype)
        } else if meta.shape.len() != 2 {
            Err(SafetensorsError::NotRank2)
        } else {
            Ok((meta.shape[0], meta.shape[1]))
        }
    }
}

fn le_u32_words(raw: &[u8]) -> (r: Vec<u32>)
    requires
        raw@.len() % 4 == 0,
    ensures
        r@.map_values(|x: u32| x as nat) == le_words(raw@, 4),
{
    let len = raw.len();
    let n = len / 4;
    let mut out: Vec<u32> = Vec::new();
    let mut k: usize = 0;
    while k < n
        invariant
            len == raw@.len(),
            n == raw@.len() / 4,
            raw@.len() % 4 == 0,
            k <= n,
            out@.len() == k,
            forall|q: int| 0 <= q < k ==> #[trigger] out@[q] as nat == le_value(raw@.subrange(q * 4, q * 4 + 4)),
        decreases n - k,
    {
        let b = 4 * k;
        let ghost w = raw@.subrange(b as int, b + 4);
        proof {
            lemma_le4(w);
        }
        let x: u32 = raw[b] as u32 + 256 * (raw[b + 1] as u32 + 256 * (raw[b + 2] as u32 + 256 * raw[b + 3] as u32));
        out.push(x);
        k = k + 1;
    }
    assert(out@.map_values(|x: u32| x as nat) =~= le_words(raw@, 4));
    out
}

fn le_u16_words(raw: &[u8]) -> (r: Vec<u16>)
    requires
        raw@.len() % 2 == 0,
    ensures
        r@.map_values(|x: u16| x as nat) == le_words(raw@, 2),
{
    let len = raw.len();
    let n = len / 2;
    let mut out: Vec<u16> = Vec::new();
    let mut k: usize = 0;
    while k < n
        invariant
            len == raw@.len(),
            n == raw@.len() / 2,
            raw@.len() % 2 == 0,
            k <= n,
            out@.len() == k,
            forall|q: int| 0 <= q < k ==> #[trigger] out@[q] as nat == le_value(raw@.subrange(q * 2, q * 2 + 2)),
        decreases n - k,
    {
        let b = 2 * k;
        let ghost w = raw@.subrange(b as int, b + 2);
        proof {
            lemma_le2(w);
        }
        let x: u16 = raw[b] as u16 + 256 * raw[b + 1] as u16;
        out.push(x);
        k = k + 1;
    }
    assert(out@.map_values(|x: u16| x as nat) =~= le_words(raw@, 2));
    out
}

proof fn lemma_le4(w: Seq<u8>)
    requires
        w.len() == 4,
    ensures
        le_value(w) == w[0] as nat + 256 * (w[1] as nat + 256 * (w[2] as nat + 256 * w[3] as nat)),
{
    reveal_with_fuel(le_value, 5);
    assert(w.drop_first()[0] == w[1]);
    assert(w.drop_first().drop_first()[0] == w[2]);
    assert(w.drop_first().drop_first().drop_first()[0] == w[3]);
    assert(w.drop_first().drop_first().drop_first().drop_first().len() == 0);
}

proof fn lemma_le2(w: Seq<u8>)
    requires
        w.len() == 2,
    ensures
        le_value(w) == w[0] as nat + 256 * w[1] as nat,
{
    reveal_with_fuel(le_value, 3);
    assert(w.drop_first()[0] == w[1]);
    assert(w.drop_first().drop_first().len() == 0);
}

pub open spec fn pow256(n: nat) -> nat
    decreases n,
{
    if n == 0 {
        1
    } else {
        256 * pow256((n - 1) as nat)
    }
}

pub(crate) proof fn lemma_le_value_bound(b: Seq<u8>)
    ensures
        le_value(b) < pow256(b.len()),
    decreases b.len(),
{
    if b.len() > 0 {
        lemma_le_value_bound(b.drop_first());
    }
}

proof fn lemma_pow256_le8(n: nat)
    requires
        n <= 8,
    ensures
        pow256(n) <= 0x1_0000_0000_0000_0000,
        n >= 1 ==> pow256(n) == 256 * pow256((n - 1) as nat),
{
    reveal_with_fuel(pow256, 9);
}

/// Builds the tensor table from the header members.
fn collect_tensors(obj: &[(String, Json)]) -> (r: Result<Vec<(String, TensorInfo)>, SafetensorsError>)
    ensures
        match header_tensors(json_obj_view(obj@), Map::empty()) {
            Ok(m) => r matches Ok(v) && names_unique(v@) && table_map(v@) == m,
            Err(e) => r == Err::<Vec<(String, TensorInfo)>, SafetensorsError>(e),
        },
{
    let ghost members = json_obj_view(obj@);
    proof {
        lemma_obj_view_index(obj@);
    }
    let mut out: Vec<(String, TensorInfo)> = Vec::new();
    let mut k: usize = 0;
    assert(members.subrange(0, members.len() as int) =~= members);
    while k < obj.len()
        invariant
            members == json_obj_view(obj@),
            members.len() == obj@.len(),
            k <= obj@.len(),
            names_unique(out@),
            forall|q: int|
                0 <= q < obj@.len() ==> #[trigger] members[q] == (obj@[q].0@, json_view(obj@[q].1)),
            header_tensors(members, Map::empty()) == header_tensors(
                members.subrange(k as int, members.len() as int),
                table_map(out@),
            ),
        decreases obj@.len() - k,
    {
        let ghost rest = members.subrange(k as int, members.len() as int);
        assert(rest[0] == members[k as int]);
        assert(rest.drop_first() =~= members.subrange(k + 1, members.len() as int));
        let name = &obj[k].0;
        if !str_eq(name.as_str(), "__metadata__") {
            let info = match tensor_info_of(&obj[k].1) {
                Ok(i) => i,
                Err(e) => {
                    return Err(e);
                },
            };
            let ghost before = out@;
            let key = name.clone();
            match find_name(&out, key.as_str()) {
                Some(i) => {
                    proof {
                        lemma_table_map_update(before, i as int, (key, info));
                    }
                    out.set(i, (key, info));
                },
                None => {
                    out.push((key, info));
                    assert(out@.drop_last() =~= before);
                    assert(names_unique(out@)) by {
                        assert forall|a: int, b: int| 0 <= a < b < out@.len() implies out@[a].0@
                            != out@[b].0@ by {
                            if b < before.len() {
                                assert(out@[a] == before[a] && out@[b] == before[b]);
                            } else {
                                assert(out@[a] == before[a]);
                            }
                        }
                    }
                },
            }
        }
        k = k + 1;
    }
    assert(members.subrange(k as int, members.len() as int) =~= Seq::<(Seq<char>, JsonSpec)>::empty());
    Ok(out)
}

/// Position of the entry named `name`.
fn find_name(v: &Vec<(String, TensorInfo)>, name: &str) -> (r: Option<usize>)
    ensures
        r matches Some(i) ==> i < v@.len() && v@[i as int].0@ == name@,
        r is None ==> forall|i: int| 0 <= i < v@.len() ==> v@[i].0@ != name@,
{
    let mut k: usize = 0;
    while k < v.len()
        invariant
            k <= v@.len(),
            forall|i: int| 0 <= i < k ==> v@[i].0@ != name@,
        decreases v@.len() - k,
    {
        if str_eq(v[k].0.as_str(), name) {
            return Some(k);
        }
        k = k + 1;
    }
    None
}

/// Reads one tensor's metadata from its header member.
fn tensor_info_of(v: &Json) -> (r: Result<TensorInfo, SafetensorsError>)
    ensures
        match tensor_meta(v@) {
            Ok(m) => r matches Ok(i) && i@ == m,
            Err(e) => r == Err::<TensorInfo, SafetensorsError>(e),
        },
{
    let meta = match v.as_obj() {
        Some(m) => m,
        None => {
            return Err(SafetensorsError::MetadataNotObject);
        },
    };
    let ghost mv = json_obj_view(meta@);
    assert(v@ == JsonSpec::Obj(mv));
    let dtype = match obj_get(meta, "dtype") {
        None => {
            return Err(SafetensorsError::MissingDtype);
        },
        Some(d) => match d.as_str() {
            None => {
                return Err(SafetensorsError::DtypeNotString);
            },
            Some(ds) => match DType::parse(ds) {
                Some(dt) => dt,
                None => {
                    return Err(SafetensorsError::UnknownDtype);
                },
            },
        },
    };
    let shape_arr = match obj_get(meta, "shape") {
        None => {
            return Err(SafetensorsError::MissingShape);
        },
        Some(s) => match s.as_arr() {
            None => {
                return Err(SafetensorsError::ShapeNotArray);
            },
            Some(a) => a,
        },
    };
    let ghost av = json_seq_view(shape_arr@);
    proof {
        lemma_seq_view_index(shape_arr@);
    }
    assert(dtype_field(mv) == Ok::<DType, SafetensorsError>(dtype));
    assert(lookup(mv, "shape"@) == Some(JsonSpec::Arr(av)));
    let mut shape: Vec<usize> = Vec::new();
    let mut k: usize = 0;
    while k < shape_arr.len()
        invariant
            av == json_seq_view(shape_arr@),
            av.len() == shape_arr@.len(),
            v@ == JsonSpec::Obj(mv),
            dtype_field(mv) == Ok::<DType, SafetensorsError>(dtype),
            lookup(mv, "shape"@) == Some(JsonSpec::Arr(av)),
            forall|q: int| 0 <= q < shape_arr@.len() ==> #[trigger] av[q] == json_view(shape_arr@[q]),
            k <= shape_arr@.len(),
            shape@.len() == k,
            forall|q: int| 0 <= q < k ==> #[trigger] av[q] is Int && shape@[q] == #[verifier::truncate] ((av[q]->Int_0) as usize),
        decreases shape_arr@.len() - k,
    {
        match shape_arr[k].as_u64() {
            Some(d) => {
                shape.push(#[verifier::truncate] (d as usize));
            },
            None => {
                assert(!all_ints(av)) by {
                    assert(!(av[k as int] is Int));
                }
                return Err(SafetensorsError::ShapeNonInteger);
            },
        }
        k = k + 1;
    }
    assert(shape@ =~= Seq::new(av.len(), |q: int| #[verifier::truncate] ((av[q]->Int_0) as usize)));
    let offs = match obj_get(meta, "data_offsets") {
        None => {
            return Err(SafetensorsError::MissingDataOffsets);
        },
        Some(o) => match o.as_arr() {
            None => {
                return Err(SafetensorsError::DataOffsetsNotArray);
            },
            Some(a) => a,
        },
    };
    proof {
        lemma_seq_view_index(offs@);
    }
    if offs.len() != 2 {
        return Err(SafetensorsError::DataOffsetsCount);
    }
    let start = match offs[0].as_u64() {
        Some(x) => #[verifier::truncate] (x as usize),
        None => {
            return Err(SafetensorsError::BadOffset);
        },
    };
    let end = match offs[1].as_u64() {
        Some(x) => #[verifier::truncate] (x as usize),
        None => {
            return Err(SafetensorsError::BadOffset);
        },
    };
    if end < start {
        return Err(SafetensorsError::OffsetsReversed);
    }
    Ok(TensorInfo { dtype, shape, byte_offset: start, byte_len: end - start })
}


// ---------------------------------------------------------------------------
// Writing
// ---------------------------------------------------------------------------

/// Borrowed tensor slice for serialization into safetensors format.
pub struct TensorView<'a> {
    pub name: &'a str,
    pub dtype: DType,
    pub shape: &'a [usize],
    pub data: &'a [u8],
}

/// The header spelling of the dtypes that can be written.
pub open spec fn dtype_text(d: DType) -> Option<Seq<u8>> {
    match d {
        DType::F32 => Some(seq![0x46u8, 0x33, 0x32]),  // F32
        DType::F16 => Some(seq![0x46u8, 0x31, 0x36]),  // F16
        DType::I32 => Some(seq![0x49u8, 0x33, 0x32]),  // I32
        DType::I64 => Some(seq![0x49u8, 0x36, 0x34]),  // I64
        DType::Bool => Some(seq![0x42u8, 0x4F, 0x4F, 0x4C]),  // BOOL
        _ => None,
    }
}

/// `", "`
pub open spec fn comma_space() -> Seq<u8> {
    seq![0x2Cu8, 0x20]
}

/// Shape dimensions in decimal, separated by `", "`.
pub open spec fn dims_text(shape: Seq<usize>) -> Seq<u8>
    decreases shape.len(),
{
    if shape.len() == 0 {
        Seq::empty()
    } else if shape.len() == 1 {
        decimal(shape[0] as nat)
    } else {
        dims_text(shape.drop_last()) + comma_space() + decimal(shape.last() as nat)
    }
}

/// `"": {"dtype": "`
pub open spec fn dtype_key() -> Seq<u8> {
    seq![0x22u8, 0x3A, 0x20, 0x7B, 0x22, 0x64, 0x74, 0x79, 0x70, 0x65, 0x22, 0x3A, 0x20, 0x22]
}

/// `"", "shape": ["`
pub open spec fn shape_key() -> Seq<u8> {
    seq![0x22u8, 0x2C, 0x20, 0x22, 0x73, 0x68, 0x61, 0x70, 0x65, 0x22, 0x3A, 0x20, 0x5B]
}

/// `"], "data_offsets": ["`
pub open spec fn offsets_key() -> Seq<u8> {
    seq![
        0x5Du8, 0x2C, 0x20, 0x22, 0x64, 0x61, 0x74, 0x61, 0x5F, 0x6F, 0x66, 0x66, 0x73, 0x65, 0x74,
        0x73, 0x22, 0x3A, 0x20, 0x5B,
    ]
}

/// One header member: `"name": {"dtype": "D", "shape": [..], "data_offsets": [start, end]}`.
pub open spec fn entry_text(name: Seq<char>, dtype: Seq<u8>, shape: Seq<usize>, start: nat, end: nat) -> Seq<u8> {
    seq![0x22u8] + encode_utf8(name) + dtype_key() + dtype + shape_key() + dims_text(shape)
        + offsets_key() + decimal(start) + comma_space() + decimal(end) + seq![0x5Du8, 0x7D]
}

pub open spec fn data_len_sum(ts: Seq<TensorView>) -> nat
    decreases ts.len(),
{
    if ts.len() == 0 {
        0
    } else {
        data_len_sum(ts.drop_last()) + ts.last().data@.len()
    }
}

pub open spec fn all_writable(ts: Seq<TensorView>) -> bool {
    forall|k: int| 0 <= k < ts.len() ==> #[trigger] dtype_text(ts[k].dtype) is Some
}

/// The header members of the first `n` tensors, separated by `", "`.
pub open spec fn entries_text(ts: Seq<TensorView>, n: nat) -> Seq<u8>
    decreases n,
{
    if n == 0 {
        Seq::empty()
    } else {
        let t = ts[n - 1];
        let start = data_len_sum(ts.take(n - 1));
        let entry = entry_text(t.name@, dtype_text(t.dtype)->0, t.shape@, start, start + t.data@.len());
        if n == 1 {
            entry
        } else {
            entries_text(ts, (n - 1) as nat) + comma_space() + entry
        }
    }
}

/// The JSON header of a file holding `ts`.
pub open spec fn header_text(ts: Seq<TensorView>) -> Seq<u8> {
    seq![0x7Bu8] + entries_text(ts, ts.len()) + seq![0x7Du8]
}

/// `width` little-endian bytes of `n`.
pub open spec fn le_bytes(n: nat, width: nat) -> Seq<u8>
    decreases width,
{
    if width == 0 {
        Seq::empty()
    } else {
        seq![(n % 256) as u8] + le_bytes(n / 256, (width - 1) as nat)
    }
}

/// The data sections of the first `n` tensors, back to back.
pub open spec fn data_concat(ts: Seq<TensorView>, n: nat) -> Seq<u8>
    decreases n,
{
    if n == 0 {
        Seq::empty()
    } else {
        data_concat(ts, (n - 1) as nat) + ts[n - 1].data@
    }
}

/// The bytes of a safetensors file holding `ts`.
pub open spec fn file_text(ts: Seq<TensorView>) -> Seq<u8> {
    let h = header_text(ts);
    le_bytes(h.len(), 8) + h + data_concat(ts, ts.len())
}

fn push_bytes(out: &mut Vec<u8>, s: &[u8])
    ensures
        final(out)@ == old(out)@ + s@,
{
    let mut k: usize = 0;
    while k < s.len()
        invariant
            k <= s@.len(),
            out@ == old(out)@ + s@.take(k as int),
        decreases s@.len() - k,
    {
        out.push(s[k]);
        k = k + 1;
        assert(out@ =~= old(out)@ + s@.take(k as int));
    }
    assert(s@.take(s@.len() as int) =~= s@);
}

/// Appends the decimal digits of `n`.
fn push_decimal(out: &mut Vec<u8>, n: usize)
    ensures
        final(out)@ == old(out)@ + decimal(n as nat),
    decreases n,
{
    if n < 10 {
        out.push((0x30 + n) as u8);
        assert(final(out)@ =~= old(out)@ + decimal(n as nat));
    } else {
        push_decimal(out, n / 10);
        out.push((0x30 + n % 10) as u8);
        assert(final(out)@ =~= old(out)@ + decimal(n as nat));
    }
}

fn push_dtype(out: &mut Vec<u8>, d: DType)
    requires
        dtype_text(d) is Some,
    ensures
        final(out)@ == old(out)@ + dtype_text(d)->0,
{
    match d {
        DType::F32 => {
            let p: [u8; 3] = [0x46, 0x33, 0x32];
            push_bytes(out, &p);
        },
        DType::F16 => {
            let p: [u8; 3] = [0x46, 0x31, 0x36];
            push_bytes(out, &p);
        },
        DType::I32 => {
            let p: [u8; 3] = [0x49, 0x33, 0x32];
            push_bytes(out, &p);
        },
        DType::I64 => {
            let p: [u8; 3] = [0x49, 0x36, 0x34];
            push_bytes(out, &p);
        },
        _ => {
            let p: [u8; 4] = [0x42, 0x4F, 0x4F, 0x4C];
            push_bytes(out, &p);
        },
    }
    assert(final(out)@ =~= old(out)@ + dtype_text(d)->0);
}

fn push_entry(out: &mut Vec<u8>, t: &TensorView, start: usize, end: usize)
    requires
        dtype_text(t.dtype) is Some,
    ensures
        final(out)@ == old(out)@ + entry_text(t.name@, dtype_text(t.dtype)->0, t.shape@, start as nat, end as nat),
{
    let q: [u8; 1] = [0x22];
    push_bytes(out, &q);
    push_bytes(out, t.name.as_bytes());
    let dk: [u8; 14] = [0x22, 0x3A, 0x20, 0x7B, 0x22, 0x64, 0x74, 0x79, 0x70, 0x65, 0x22, 0x3A, 0x20, 0x22];
    push_bytes(out, &dk);
    push_dtype(out, t.dtype);
    let sk: [u8; 13] = [0x22, 0x2C, 0x20, 0x22, 0x73, 0x68, 0x61, 0x70, 0x65, 0x22, 0x3A, 0x20, 0x5B];
    push_bytes(out, &sk);
    let ghost before_dims = out@;
    let mut k: usize = 0;
    while k < t.shape.len()
        invariant
            k <= t.shape@.len(),
            out@ == before_dims + dims_text(t.shape@.take(k as int)),
        decreases t.shape@.len() - k,
    {
        let ghost prev = out@;
        if k > 0 {
            let cs: [u8; 2] = [0x2C, 0x20];
            push_bytes(out, &cs);
        }
        push_decimal(out, t.shape[k]);
        let ghost next = t.shape@.take(k + 1);
        assert(next.drop_last() =~= t.shape@.take(k as int));
        assert(next.last() == t.shape@[k as int]);
        k = k + 1;
        assert(out@ =~= before_dims + dims_text(t.shape@.take(k as int)));
    }
    assert(t.shape@.take(t.shape@.len() as int) =~= t.shape@);
    let ok: [u8; 20] = [
        0x5D, 0x2C, 0x20, 0x22, 0x64, 0x61, 0x74, 0x61, 0x5F, 0x6F, 0x66, 0x66, 0x73, 0x65, 0x74,
        0x73, 0x22, 0x3A, 0x20, 0x5B,
    ];
    push_bytes(out, &ok);
    push_decimal(out, start);
    let cs: [u8; 2] = [0x2C, 0x20];
    push_bytes(out, &cs);
    push_decimal(out, end);
    let close: [u8; 2] = [0x5D, 0x7D];
    push_bytes(out, &close);
    assert(final(out)@ =~= old(out)@ + entry_text(t.name@, dtype_text(t.dtype)->0, t.shape@, start as nat, end as nat));
}

/// The bytes of a `.safetensors` file holding `tensors` (header first, then
/// the data sections in the given order).
pub fn encode_safetensors(tensors: &[TensorView]) -> (r: Result<Vec<u8>, SafetensorsError>)
    requires
        data_len_sum(tensors@) <= usize::MAX,
    ensures
        all_writable(tensors@) ==> r == Ok::<Vec<u8>, SafetensorsError>(r->Ok_0) && r->Ok_0@ == file_text(tensors@),
        !all_writable(tensors@) ==> r == Err::<Vec<u8>, SafetensorsError>(SafetensorsError::UnsupportedDtype),
{
    let mut header: Vec<u8> = Vec::new();
    let open: [u8; 1] = [0x7B];
    push_bytes(&mut header, &open);
    let mut offset: usize = 0;
    let mut k: usize = 0;
    while k < tensors.len()
        invariant
            k <= tensors@.len(),
            data_len_sum(tensors@) <= usize::MAX,
            offset as nat == data_len_sum(tensors@.take(k as int)),
            all_writable(tensors@.take(k as int)),
            header@ == seq![0x7Bu8] + entries_text(tensors@, k as nat),
        decreases tensors@.len() - k,
    {
        let t = &tensors[k];
        let writable = match t.dtype {
            DType::F32 | DType::F16 | DType::I32 | DType::I64 | DType::Bool => true,
            _ => false,
        };
        if !writable {
            assert(!all_writable(tensors@)) by {
                assert(!(dtype_text(tensors@[k as int].dtype) is Some));
            }
            return Err(SafetensorsError::UnsupportedDtype);
        }
        proof {
            lemma_data_len_sum_prefix(tensors@, (k + 1) as nat);
            assert(tensors@.take(k + 1).drop_last() =~= tensors@.take(k as int));
        }
        let end = offset + t.data.len();
        if k > 0 {
            let cs: [u8; 2] = [0x2C, 0x20];
            push_bytes(&mut header, &cs);
        }
        push_entry(&mut header, t, offset, end);
        proof {
            assert(tensors@.take(k as int) =~= tensors@.take(k as int));
        }
        offset = end;
        k = k + 1;
        assert(header@ =~= seq![0x7Bu8] + entries_text(tensors@, k as nat));
        assert(all_writable(tensors@.take(k as int))) by {
            assert forall|q: int| 0 <= q < k implies #[trigger] dtype_text(tensors@.take(k as int)[q].dtype) is Some by {
                if q < k - 1 {
                    assert(tensors@.take(k as int)[q] == tensors@.take(k - 1)[q]);
                }
            }
        }
    }
    assert(tensors@.take(tensors@.len() as int) =~= tensors@);
    let close: [u8; 1] = [0x7D];
    push_bytes(&mut header, &close);
    let mut out: Vec<u8> = Vec::new();
    let mut n: u64 = header.len() as u64;
    let mut w: usize = 0;
    let ghost hlen = header@.len();
    while w < 8
        invariant
            w <= 8,
            header@.len() == hlen,
            le_bytes(hlen, 8) == out@ + le_bytes(n as nat, (8 - w) as nat),
        decreases 8 - w,
    {
        out.push((n % 256) as u8);
        n = n / 256;
        w = w + 1;
    }
    push_bytes(&mut out, header.as_slice());
    let mut j: usize = 0;
    while j < tensors.len()
        invariant
            j <= tensors@.len(),
            out@ == le_bytes(hlen, 8) + header@ + data_concat(tensors@, j as nat),
        decreases tensors@.len() - j,
    {
        push_bytes(&mut out, tensors[j].data);
        j = j + 1;
    }
    Ok(out)
}

pub(crate) proof fn lemma_data_len_sum_prefix(ts: Seq<TensorView>, n: nat)
    requires
        n <= ts.len(),
    ensures
        data_len_sum(ts.take(n as int)) <= data_len_sum(ts),
    decreases ts.len(),
{
    if n < ts.len() {
        lemma_data_len_sum_prefix(ts.drop_last(), n);
        assert(ts.drop_last().take(n as int) =~= ts.take(n as int));
    } else {
        assert(ts.take(n as int) =~= ts);
    }
}

} // verus!

verus! {

// ---------------------------------------------------------------------------
// What a header's members give
// ---------------------------------------------------------------------------

/// Member `j` is `__metadata__` or describes a readable tensor.
pub open spec fn member_ok(members: Seq<(Seq<char>, JsonSpec)>, j: int) -> bool {
    members[j].0 == "__metadata__"@ || tensor_meta(members[j].1) is Ok
}

/// No later member has the name of member `j`.
pub open spec fn last_of_name(members: Seq<(Seq<char>, JsonSpec)>, j: int) -> bool {
    forall|q: int| j < q < members.len() ==> (#[trigger] members[q]).0 != members[j].0
}

/// A tensor member named `name` (not `__metadata__`) is among `members`.
pub open spec fn names_tensor(members: Seq<(Seq<char>, JsonSpec)>, name: Seq<char>) -> bool {
    name != "__metadata__"@ && exists|j: int| 0 <= j < members.len() && (#[trigger] members[j]).0 == name
}

proof fn lemma_header_ok(members: Seq<(Seq<char>, JsonSpec)>, acc: Map<Seq<char>, TensorMeta>)
    ensures
        (header_tensors(members, acc) is Ok) == (forall|j: int| 0 <= j < members.len() ==> #[trigger] member_ok(members, j)),
    decreases members.len(),
{
    if members.len() == 0 {
        return;
    }
    let rest = members.drop_first();
    let acc2 = if members[0].0 == "__metadata__"@ {
        acc
    } else {
        match tensor_meta(members[0].1) {
            Ok(meta) => acc.insert(members[0].0, meta),
            Err(_) => acc,
        }
    };
    lemma_header_ok(rest, acc2);
    assert forall|j: int| 0 <= j < rest.len() implies member_ok(rest, j) == member_ok(members, j + 1) by {
        assert(rest[j] == members[j + 1]);
    }
    if (forall|j: int| 0 <= j < members.len() ==> #[trigger] member_ok(members, j)) {
        assert(member_ok(members, 0));
        assert forall|j: int| 0 <= j < rest.len() implies #[trigger] member_ok(rest, j) by {
            assert(member_ok(members, j + 1));
        }
    } else {
        let j = choose|j: int| 0 <= j < members.len() && !#[trigger] member_ok(members, j);
        if j > 0 {
            assert(!member_ok(rest, j - 1));
        }
    }
}

proof fn lemma_names_shift(members: Seq<(Seq<char>, JsonSpec)>, name: Seq<char>)
    requires
        members.len() > 0,
    ensures
        names_tensor(members, name) == ((name != "__metadata__"@ && members[0].0 == name) || names_tensor(
            members.drop_first(),
            name,
        )),
{
    let rest = members.drop_first();
    if names_tensor(rest, name) {
        let q = choose|q: int| 0 <= q < rest.len() && (#[trigger] rest[q]).0 == name;
        assert(members[q + 1].0 == name);
    }
    if names_tensor(members, name) {
        let q = choose|q: int| 0 <= q < members.len() && (#[trigger] members[q]).0 == name;
        if q > 0 {
            assert(rest[q - 1].0 == name);
        }
    }
}

proof fn lemma_header_map(members: Seq<(Seq<char>, JsonSpec)>, acc: Map<Seq<char>, TensorMeta>)
    requires
        header_tensors(members, acc) is Ok,
    ensures
        ({
            let t = header_tensors(members, acc)->Ok_0;
            &&& forall|name: Seq<char>| #[trigger] t.contains_key(name) <==> acc.contains_key(name) || names_tensor(members, name)
            &&& forall|j: int|
                0 <= j < members.len() && members[j].0 != "__metadata__"@ && last_of_name(members, j) ==> t[(#[trigger] members[j]).0]
                    == tensor_meta(members[j].1)->Ok_0
            &&& forall|name: Seq<char>| acc.contains_key(name) && !names_tensor(members, name) ==> #[trigger] t[name] == acc[name]
        }),
    decreases members.len(),
{
    if members.len() == 0 {
        return;
    }
    let rest = members.drop_first();
    let acc2 = if members[0].0 == "__metadata__"@ {
        acc
    } else {
        acc.insert(members[0].0, tensor_meta(members[0].1)->Ok_0)
    };
    assert(header_tensors(rest, acc2) == header_tensors(members, acc));
    lemma_header_map(rest, acc2);
    let t = header_tensors(members, acc)->Ok_0;
    assert forall|name: Seq<char>| #[trigger] t.contains_key(name) <==> acc.contains_key(name) || names_tensor(members, name) by {
        lemma_names_shift(members, name);
    }
    assert forall|j: int|
        0 <= j < members.len() && members[j].0 != "__metadata__"@ && last_of_name(members, j) implies t[(#[trigger] members[j]).0]
        == tensor_meta(members[j].1)->Ok_0 by {
        if j > 0 {
            assert(rest[j - 1] == members[j]);
            assert forall|q: int| j - 1 < q < rest.len() implies (#[trigger] rest[q]).0 != rest[j - 1].0 by {
                assert(members[q + 1] == rest[q]);
            }
        } else {
            lemma_names_shift(members, members[0].0);
            if names_tensor(rest, members[0].0) {
                let q = choose|q: int| 0 <= q < rest.len() && (#[trigger] rest[q]).0 == members[0].0;
                assert(members[q + 1].0 == members[0].0);
            }
        }
    }
    assert forall|name: Seq<char>| acc.contains_key(name) && !names_tensor(members, name) implies #[trigger] t[name] == acc[name] by {
        lemma_names_shift(members, name);
    }
}

/// What a safetensors header's members give, whenever the header is a JSON
/// object: the file is refused exactly when some member other than
/// `__metadata__` does not describe a tensor; otherwise the tensors are
/// exactly the names of the other members, and each name has what its last
/// member says.
pub proof fn lemma_header_members(b: Seq<u8>)
    requires
        b.len() >= 8,
        8 + le_value(b.take(8)) as u64 <= b.len(),
        8 + le_value(b.take(8)) as u64 <= usize::MAX,
        document(b.subrange(8, 8 + (le_value(b.take(8)) as u64) as usize)) is Ok,
        document(b.subrange(8, 8 + (le_value(b.take(8)) as u64) as usize))->Ok_0 is Obj,
    ensures
        ({
            let members = document(b.subrange(8, 8 + (le_value(b.take(8)) as u64) as usize))->Ok_0->Obj_0;
            &&& (parse_file(b) is Ok) == (forall|j: int| 0 <= j < members.len() ==> #[trigger] member_ok(members, j))
            &&& parse_file(b) matches Ok((t, off)) ==> {
                &&& off == 8 + le_value(b.take(8)) as u64
                &&& forall|name: Seq<char>| #[trigger] t.contains_key(name) <==> names_tensor(members, name)
                &&& forall|j: int|
                    0 <= j < members.len() && members[j].0 != "__metadata__"@ && last_of_name(members, j) ==> t[(#[trigger] members[j]).0]
                        == tensor_meta(members[j].1)->Ok_0
            }
        }),
{
    let members = document(b.subrange(8, 8 + (le_value(b.take(8)) as u64) as usize))->Ok_0->Obj_0;
    lemma_header_ok(members, Map::empty());
    if header_tensors(members, Map::empty()) is Ok {
        lemma_header_map(members, Map::empty());
    }
}

} // verus!
