use timesfm3::checkpoint::{
    encode_safetensors, DType, Safetensors, SafetensorsError, TensorView, TensorWords,
};
use timesfm3::tensor::Tensor2D;

/// The elements of an F32 or F16 tensor as f32 values.
fn f32_flat(st: &Safetensors, name: &str) -> Result<Vec<f32>, SafetensorsError> {
    match st.tensor_words(name)? {
        TensorWords::W32(w) => Ok(w.into_iter().map(f32::from_bits).collect()),
        TensorWords::W16(w) => Ok(w
            .into_iter()
            .map(|b| half::f16::from_bits(b).to_f32())
            .collect()),
    }
}

/// A matrix tensor as f32 values.
fn f32_tensor(st: &Safetensors, name: &str) -> Result<Tensor2D<f32>, SafetensorsError> {
    let (rows, cols) = st.f32_matrix_shape(name)?;
    let data = f32_flat(st, name)?;
    Tensor2D::from_row_major(rows, cols, data).map_err(|_| SafetensorsError::BadByteLength)
}

/// A two-tensor F32 safetensors blob, hand-assembled.
fn sample_blob() -> Vec<u8> {
    let a: Vec<f32> = vec![1.0, 2.0, 3.0, 4.0, 5.0, 6.0];
    let b: Vec<f32> = vec![10.0, 20.0];
    let a_off = 0usize;
    let a_end = a.len() * 4;
    let b_off = a_end;
    let b_end = b_off + b.len() * 4;
    let header = format!(
        "{{\"a\": {{\"dtype\": \"F32\", \"shape\": [2, 3], \"data_offsets\": [{a_off}, {a_end}]}}, \"b\": {{\"dtype\": \"F32\", \"shape\": [2], \"data_offsets\": [{b_off}, {b_end}]}}, \"__metadata__\": {{\"k\": \"v\"}}}}",
        a_off = a_off,
        a_end = a_end,
        b_off = b_off,
        b_end = b_end,
    );
    let mut out = Vec::new();
    out.extend_from_slice(&(header.len() as u64).to_le_bytes());
    out.extend_from_slice(header.as_bytes());
    out.extend_from_slice(&a.iter().flat_map(|v| v.to_le_bytes()).collect::<Vec<u8>>());
    out.extend_from_slice(&b.iter().flat_map(|v| v.to_le_bytes()).collect::<Vec<u8>>());
    out
}

#[test]
fn parses_and_reads_tensors() {
    let st = Safetensors::parse_bytes(&sample_blob()).expect("test fixture invariant");
    assert_eq!(st.len(), 2);

    let a = f32_tensor(&st, "a").expect("test fixture invariant");
    assert_eq!((a.rows(), a.cols()), (2, 3));
    assert_eq!(a.get(1, 2), 6.0);

    let b = f32_flat(&st, "b").expect("test fixture invariant");
    assert_eq!(b, vec![10.0, 20.0]);
}

#[test]
fn unknown_tensor_errors() {
    let st = Safetensors::parse_bytes(&sample_blob()).expect("test fixture invariant");
    assert!(f32_tensor(&st, "nope").is_err());
}

#[test]
fn bad_length_errors() {
    assert!(Safetensors::parse_bytes(b"short").is_err());
    let mut blob = vec![0u8; 16];
    blob[..8].copy_from_slice(&1000u64.to_le_bytes());
    assert!(Safetensors::parse_bytes(&blob).is_err());
}

#[test]
fn parses_in_memory_blob() {
    let st = Safetensors::parse_bytes(&sample_blob()).expect("test fixture invariant");
    assert_eq!(st.len(), 2);

    let a = f32_tensor(&st, "a").expect("test fixture invariant");
    assert_eq!((a.rows(), a.cols()), (2, 3));
    assert_eq!(a.get(0, 0), 1.0);
    assert_eq!(a.get(1, 2), 6.0);

    let b = f32_flat(&st, "b").expect("test fixture invariant");
    assert_eq!(b, vec![10.0, 20.0]);

    let info_a = st.tensor_info("a").expect("test fixture invariant");
    assert_eq!(info_a.dtype, DType::F32);
    assert_eq!(info_a.shape, vec![2, 3]);
    assert_eq!(info_a.byte_len, 24);
}

#[test]
fn missing_tensor_is_an_error() {
    let st = Safetensors::parse_bytes(&sample_blob()).expect("test fixture invariant");
    assert!(f32_tensor(&st, "nope").is_err());
    assert!(f32_flat(&st, "nope").is_err());
    assert!(st.tensor_info("nope").is_none());
}

#[test]
fn rejects_truncated_files() {
    assert!(Safetensors::parse_bytes(b"\x01\x00\x00\x00\x00\x00\x00\x00").is_err());
    let mut bogus = vec![0u8; 16];
    bogus[..8].copy_from_slice(&1_000_000u64.to_le_bytes());
    assert!(Safetensors::parse_bytes(&bogus).is_err());
}

#[test]
fn dtype_parse_allowlist() {
    for (s, ok) in [
        ("F32", true),
        ("F16", true),
        ("F64", true),
        ("I32", true),
        ("BOOL", true),
        ("BF16", false),
        ("f32", false),
        ("", false),
    ] {
        assert_eq!(DType::parse(s).is_some(), ok, "dtype {s:?}");
    }
}

#[test]
fn safetensors_rejects_unknown_dtype_and_reversed_offsets() {
    let header = "{\"w\": {\"dtype\": \"BF16\", \"shape\": [2], \"data_offsets\": [0, 4]}}";
    let mut blob = Vec::new();
    blob.extend_from_slice(&(header.len() as u64).to_le_bytes());
    blob.extend_from_slice(header.as_bytes());
    blob.extend_from_slice(&[0u8; 4]);
    assert!(Safetensors::parse_bytes(&blob).is_err());

    let header2 = "{\"w\": {\"dtype\": \"F32\", \"shape\": [1], \"data_offsets\": [4, 0]}}";
    let mut blob2 = Vec::new();
    blob2.extend_from_slice(&(header2.len() as u64).to_le_bytes());
    blob2.extend_from_slice(header2.as_bytes());
    blob2.extend_from_slice(&[0u8; 4]);
    assert!(Safetensors::parse_bytes(&blob2).is_err());
}

#[test]
fn safetensors_write_read_roundtrip_f32_and_f16() {
    let w: Vec<f32> = vec![1.0, -2.5, 3.25, 4.0, 5.5, 6.75];
    let w_bytes: Vec<u8> = w.iter().flat_map(|v| v.to_le_bytes()).collect();
    let h_bits: Vec<u16> = vec![0x3C00, 0xC000, 0x3800, 0x7C00];
    let h_bytes: Vec<u8> = h_bits.iter().flat_map(|v| v.to_le_bytes()).collect();

    let views = vec![
        TensorView {
            name: "w",
            dtype: DType::F32,
            shape: &[2, 3],
            data: &w_bytes,
        },
        TensorView {
            name: "h",
            dtype: DType::F16,
            shape: &[2, 2],
            data: &h_bytes,
        },
    ];
    let bytes = encode_safetensors(&views).expect("write");
    let st = Safetensors::from_owned_bytes(bytes).expect("reload");
    assert_eq!(st.len(), 2);

    let back = f32_flat(&st, "w").expect("read w");
    assert_eq!(back, w);
    let t = f32_tensor(&st, "w").expect("read w tensor");
    assert_eq!((t.rows(), t.cols()), (2, 3));

    let hf = f32_flat(&st, "h").expect("read h as f32");
    assert_eq!(hf, vec![1.0, -2.0, 0.5, f32::INFINITY]);
    let info = st.tensor_info("h").expect("info h");
    assert_eq!(info.dtype, DType::F16);
    assert_eq!(info.byte_len, 8);
}

#[test]
fn write_safetensors_rejects_unsupported_dtype() {
    let data = vec![0u8; 8];
    for dtype in [DType::F64, DType::U8, DType::I8] {
        let views = vec![TensorView {
            name: "x",
            dtype,
            shape: &[2],
            data: &data,
        }];
        assert_eq!(
            encode_safetensors(&views),
            Err(SafetensorsError::UnsupportedDtype),
            "dtype {dtype:?} must be rejected"
        );
    }
}

#[test]
fn f16_roundtrip_test() {
    let f16_vals: Vec<half::f16> = vec![
        half::f16::from_f32(1.5),
        half::f16::from_f32(2.5),
        half::f16::from_f32(-3.5),
        half::f16::from_f32(4.0),
    ];
    let f16_bytes: Vec<u8> = f16_vals
        .iter()
        .flat_map(|v| v.to_bits().to_le_bytes())
        .collect();
    let views = vec![TensorView {
        name: "weight_f16",
        dtype: DType::F16,
        shape: &[2, 2],
        data: &f16_bytes,
    }];
    let bytes = encode_safetensors(&views).expect("write failed");
    let st = Safetensors::from_owned_bytes(bytes).expect("load failed");
    assert_eq!(st.len(), 1);
    let f32_t = f32_tensor(&st, "weight_f16").expect("read f16 tensor");
    assert_eq!(f32_t.get(0, 0), 1.5);
    assert_eq!(f32_t.get(0, 1), 2.5);
    assert_eq!(f32_t.get(1, 0), -3.5);
    assert_eq!(f32_t.get(1, 1), 4.0);
}

#[test]
fn encoded_header_layout_is_exact() {
    let data = vec![7u8; 12];
    let views = vec![
        TensorView {
            name: "x",
            dtype: DType::I32,
            shape: &[3],
            data: &data[..12],
        },
        TensorView {
            name: "flag",
            dtype: DType::Bool,
            shape: &[],
            data: &data[..0],
        },
    ];
    let bytes = encode_safetensors(&views).unwrap();
    let header = "{\"x\": {\"dtype\": \"I32\", \"shape\": [3], \"data_offsets\": [0, 12]}, \"flag\": {\"dtype\": \"BOOL\", \"shape\": [], \"data_offsets\": [12, 12]}}";
    assert_eq!(&bytes[..8], &(header.len() as u64).to_le_bytes());
    assert_eq!(&bytes[8..8 + header.len()], header.as_bytes());
    assert_eq!(&bytes[8 + header.len()..], &data[..]);
    let st = Safetensors::parse_bytes(&bytes).unwrap();
    assert_eq!(st.tensor_bytes("x").unwrap(), &data[..]);
    assert_eq!(st.tensor_bytes("flag").unwrap().len(), 0);
    assert_eq!(st.tensor_info("flag").unwrap().shape, Vec::<usize>::new());
}

#[test]
fn header_errors_name_the_problem() {
    fn blob(header: &str, data: usize) -> Vec<u8> {
        let mut b = Vec::new();
        b.extend_from_slice(&(header.len() as u64).to_le_bytes());
        b.extend_from_slice(header.as_bytes());
        b.extend(std::iter::repeat(0u8).take(data));
        b
    }
    let err = |h: &str| Safetensors::parse_bytes(&blob(h, 8)).err();
    assert_eq!(err("[1]"), Some(SafetensorsError::HeaderNotObject));
    assert_eq!(err("{\"w\": 1}"), Some(SafetensorsError::MetadataNotObject));
    assert_eq!(
        err("{\"w\": {\"shape\": [1], \"data_offsets\": [0, 4]}}"),
        Some(SafetensorsError::MissingDtype)
    );
    assert_eq!(
        err("{\"w\": {\"dtype\": 3, \"shape\": [1], \"data_offsets\": [0, 4]}}"),
        Some(SafetensorsError::DtypeNotString)
    );
    assert_eq!(
        err("{\"w\": {\"dtype\": \"F32\", \"data_offsets\": [0, 4]}}"),
        Some(SafetensorsError::MissingShape)
    );
    assert_eq!(
        err("{\"w\": {\"dtype\": \"F32\", \"shape\": [1.5], \"data_offsets\": [0, 4]}}"),
        Some(SafetensorsError::ShapeNonInteger)
    );
    assert_eq!(
        err("{\"w\": {\"dtype\": \"F32\", \"shape\": [1], \"data_offsets\": [0]}}"),
        Some(SafetensorsError::DataOffsetsCount)
    );
    assert_eq!(
        err("{\"w\": {\"dtype\": \"F32\", \"shape\": [1], \"data_offsets\": [4, 0]}}"),
        Some(SafetensorsError::OffsetsReversed)
    );
}

#[test]
fn reads_check_dtype_shape_and_range() {
    let h_bytes = vec![0u8; 6];
    let views = vec![
        TensorView { name: "h", dtype: DType::F16, shape: &[3], data: &h_bytes },
        TensorView { name: "i", dtype: DType::I64, shape: &[1, 1], data: &[0u8; 8] },
    ];
    let st = Safetensors::from_owned_bytes(encode_safetensors(&views).unwrap()).unwrap();
    assert_eq!(st.f16_matrix_shape("h"), Err(SafetensorsError::NotRank2));
    assert_eq!(st.f32_matrix_shape("i"), Err(SafetensorsError::WrongDtype));
    assert_eq!(st.f32_matrix_shape("zz"), Err(SafetensorsError::NoTensor));
    assert!(matches!(st.tensor_words("i"), Err(SafetensorsError::WrongDtype)));
    assert!(matches!(st.tensor_words("h"), Ok(TensorWords::W16(w)) if w == vec![0, 0, 0]));

    // A tensor whose range runs past the end of the file.
    let header = "{\"w\": {\"dtype\": \"F32\", \"shape\": [2], \"data_offsets\": [0, 8]}}";
    let mut b = Vec::new();
    b.extend_from_slice(&(header.len() as u64).to_le_bytes());
    b.extend_from_slice(header.as_bytes());
    b.extend_from_slice(&[0u8; 4]);
    let st = Safetensors::parse_bytes(&b).unwrap();
    assert!(matches!(st.tensor_bytes("w"), Err(SafetensorsError::DataOutOfRange)));
}

#[test]
fn duplicate_names_keep_the_last_entry() {
    let header = "{\"w\": {\"dtype\": \"F32\", \"shape\": [1], \"data_offsets\": [0, 4]}, \"w\": {\"dtype\": \"F16\", \"shape\": [2], \"data_offsets\": [4, 8]}}";
    let mut b = Vec::new();
    b.extend_from_slice(&(header.len() as u64).to_le_bytes());
    b.extend_from_slice(header.as_bytes());
    b.extend_from_slice(&[0u8; 8]);
    let st = Safetensors::parse_bytes(&b).unwrap();
    assert_eq!(st.len(), 1);
    let info = st.tensor_info("w").unwrap();
    assert_eq!(info.dtype, DType::F16);
    assert_eq!(info.byte_offset, 4);
    assert_eq!(st.iter().len(), 1);
}
