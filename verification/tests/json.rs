use timesfm3::json::{obj_get, Json};

fn field<'a>(obj: &'a [(String, Json)], k: &str) -> Option<&'a Json> {
    obj.iter().find(|(name, _)| name == k).map(|(_, v)| v)
}

#[test]
fn parses_safetensors_shaped_header() {
    let src = br#"{"tensor": {"dtype": "F32", "shape": [2, 3], "data_offsets": [0, 24]}, "__metadata__": {"n": 1}}"#;
    let j = Json::parse(src).expect("test fixture invariant");
    let obj = j.as_obj().expect("test fixture invariant");
    let t = field(obj, "tensor")
        .expect("test fixture invariant")
        .as_obj()
        .expect("test fixture invariant");
    assert_eq!(
        field(t, "dtype").expect("test fixture invariant").as_str(),
        Some("F32")
    );
    let shape = field(t, "shape")
        .expect("test fixture invariant")
        .as_arr()
        .expect("test fixture invariant");
    assert_eq!(shape[0].as_u64(), Some(2));
    assert_eq!(shape[1].as_u64(), Some(3));
    let offs = field(t, "data_offsets")
        .expect("test fixture invariant")
        .as_arr()
        .expect("test fixture invariant");
    assert_eq!(offs[1].as_u64(), Some(24));
}

#[test]
fn string_escapes() {
    let j = Json::parse(br#""a\"b\\c\/d\n\u0041""#).expect("test fixture invariant");
    assert_eq!(j.as_str(), Some("a\"b\\c/d\nA"));
}

#[test]
fn rejects_trailing_garbage() {
    assert!(Json::parse(b"{} x").is_err());
    assert!(Json::parse(b"").is_err());
    assert!(Json::parse(b"123").is_ok());
}

#[test]
fn booleans_and_floats() {
    let cases: &[&[u8]] = &[
        br#"{"a": false, "b": true}"#.as_slice(),
        br#"{"a": 1e+20}"#.as_slice(),
        br#"{"a": "x", "b": 1.5}"#.as_slice(),
        br#"{"a": [0.1, 0.5, 0.9]}"#.as_slice(),
        br#"{"n": null, "x": -3}"#.as_slice(),
    ];
    for src in cases {
        let ok = Json::parse(src).is_ok();
        println!("{} -> ok={}", String::from_utf8_lossy(src), ok);
        assert!(ok, "should parse: {}", String::from_utf8_lossy(src));
    }
}

#[test]
fn single_key_object() {
    assert!(Json::parse(br#"{"input_patch_len": 32}"#).is_ok());
    assert!(Json::parse(br#"{"a": 1, "b": 2}"#).is_ok());
}

#[test]
fn json_rejects_malformed_input() {
    for src in [
        "{", "[1,", "{\"a\":}", "\"abc", "{'a':1}", "tru", "nul", "12x", "", "   ", "\x00",
    ] {
        assert!(Json::parse(src.as_bytes()).is_err(), "must reject {src:?}");
    }
}

#[test]
fn json_documents_trailing_comma_tolerance() {
    let arr = Json::parse(b"[1, 2,]").expect("trailing comma in array");
    let items = arr.as_arr().unwrap();
    assert_eq!(items.len(), 2);
    let obj = Json::parse(br#"{"a":1,}"#).expect("trailing comma in object");
    let fields = obj.as_obj().unwrap();
    assert_eq!(fields.len(), 1);
    assert_eq!(fields[0].0, "a");
}

#[test]
fn json_accessors_reject_wrong_types() {
    let v = Json::parse(br#"{"n": 3, "s": "x", "a": [1]}"#).unwrap();
    let obj = v.as_obj().unwrap();
    assert!(v.as_arr().is_none());
    assert!(v.as_str().is_none());
    assert!(v.as_u64().is_none());
    let n = &obj.iter().find(|(k, _)| k == "n").unwrap().1;
    assert_eq!(n.as_u64(), Some(3));
    assert!(n.as_str().is_none());
    assert!(n.as_obj().is_none());
    let f = Json::parse(b"1.5").unwrap();
    assert!(f.as_u64().is_none());
    let s = Json::parse(br#""a\nb\u00e9""#).unwrap();
    assert_eq!(s.as_str(), Some("a\nbé"));
}

#[test]
fn objects_and_arrays_parse_in_release() {
    for src in [
        "{}",
        "{\"a\":1}",
        "{\"a\": 1}",
        "{\"a\":1,\"b\":2}",
        "{\"input_patch_len\": 32}",
        "{\"a\":[1,2],\"b\":{\"c\":true}}",
        "[1,2]",
        "[]",
        "[[1],[2,3]]",
        "[{\"x\":1},{\"y\":2}]",
        "\"abc\"",
        "123",
        "-3",
        "1.5",
        "null",
        "true",
        "false",
    ] {
        match Json::parse(src.as_bytes()) {
            Ok(_) => {}
            Err(e) => panic!("expected OK for {:?}, got {:?}", src, e),
        }
    }
}

#[test]
fn nested_values_are_correct() {
    let root = Json::parse(br#"{"a":[1,2.5],"b":{"c":true,"d":"x"}}"#).unwrap();
    let obj = root.as_obj().unwrap();
    let a = &obj.iter().find(|(k, _)| k == "a").unwrap().1;
    let arr = a.as_arr().unwrap();
    assert_eq!(arr.len(), 2);
    assert_eq!(arr[0].as_u64(), Some(1));
    let b = &obj.iter().find(|(k, _)| k == "b").unwrap().1;
    let bobj = b.as_obj().unwrap();
    let cf = &bobj.iter().find(|(k, _)| k == "c").unwrap().1;
    assert!(matches!(cf, Json::Bool(true)));
}

#[test]
fn numbers_keep_their_kind() {
    let v = Json::parse(b"[0, 18446744073709551615, -3, 2.50, 1e3, 007]").unwrap();
    let a = v.as_arr().unwrap();
    assert_eq!(a[0].as_u64(), Some(0));
    assert_eq!(a[1].as_u64(), Some(u64::MAX));
    assert!(matches!(&a[2], Json::Float(t) if t == "-3"));
    assert!(matches!(&a[3], Json::Float(t) if t == "2.50"));
    assert!(matches!(&a[4], Json::Float(t) if t == "1e3"));
    assert_eq!(a[5].as_u64(), Some(7));
    // Integers beyond u64 (and negative ones beyond i64) are refused.
    assert!(Json::parse(b"18446744073709551616").is_err());
    assert!(Json::parse(b"-9223372036854775809").is_err());
    assert!(Json::parse(b"-").is_err());
}

#[test]
fn first_member_of_a_name_wins() {
    let v = Json::parse(br#"{"k": 1, "k": 2, "m": null}"#).unwrap();
    let obj = v.as_obj().unwrap();
    assert_eq!(obj_get(obj, "k").and_then(|j| j.as_u64()), Some(1));
    assert!(matches!(obj_get(obj, "m"), Some(Json::Null)));
    assert!(obj_get(obj, "absent").is_none());
}

#[test]
fn surrogate_escapes_and_bad_escapes_are_refused() {
    // Each \u escape must name a scalar value by itself.
    assert!(Json::parse(br#""\ud83d\ude00""#).is_err());
    assert_eq!(Json::parse(br#""\u00e9""#).unwrap().as_str(), Some("é"));
    assert!(Json::parse(br#""\q""#).is_err());
    assert!(Json::parse(br#""\u12""#).is_err());
    assert!(Json::parse(br#""\ud800""#).is_err());
    assert!(Json::parse(b"\"\xff\"").is_err());
}

#[test]
fn negative_integer_zero_reads_as_zero() {
    for text in ["-0", "-000"] {
        match Json::parse(text.as_bytes()) {
            Ok(Json::Float(t)) => {
                assert_eq!(t, "0");
                assert!(t.parse::<f64>().unwrap().is_sign_positive());
            }
            _ => panic!("{text} is a number"),
        }
    }
    // A float literal keeps its sign.
    assert!(matches!(Json::parse(b"-0.0"), Ok(Json::Float(t)) if t == "-0.0"));
    assert!(matches!(Json::parse(b"-07"), Ok(Json::Float(t)) if t == "-07"));
}
