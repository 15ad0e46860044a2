use timesfm3::config::QuantizationPrecision;
use timesfm3::quantize::{
    keeps_f32, parse_keep_f32, quantizes, split_keep_list, stamp_precision, QuantizeError,
};

fn args(list: &[&str]) -> Vec<String> {
    list.iter().map(|s| s.to_string()).collect()
}

#[test]
fn presets_name_the_sensitive_layers() {
    let balanced = parse_keep_f32(&args(&["q", "a", "b", "f16", "--preset", "balanced"])).unwrap();
    assert_eq!(
        balanced,
        vec![
            "output_head",
            "pre_transformer_resblock",
            "transformer_stack.layers.17.",
            "transformer_stack.layers.18.",
            "transformer_stack.layers.19.",
        ]
    );
    let ultra = parse_keep_f32(&args(&["--preset", "ultra"])).unwrap();
    assert_eq!(ultra.len(), 7);
    assert_eq!(ultra[2], "transformer_stack.layers.15.");
    assert_eq!(parse_keep_f32(&args(&["--preset", "high_accuracy"])).unwrap(), ultra);
    for b in &balanced {
        assert!(ultra.contains(b));
    }
}

#[test]
fn preset_and_keep_list_errors() {
    assert_eq!(
        parse_keep_f32(&args(&["--preset"])),
        Err(QuantizeError::MissingPresetName)
    );
    assert_eq!(
        parse_keep_f32(&args(&["--preset", "fast"])),
        Err(QuantizeError::UnknownPreset)
    );
    assert_eq!(
        parse_keep_f32(&args(&["x", "--keep-f32"])),
        Err(QuantizeError::MissingKeepList)
    );
    // A preset wins over a keep list.
    assert_eq!(
        parse_keep_f32(&args(&["--keep-f32", "a", "--preset", "balanced"])).unwrap().len(),
        5
    );
    assert_eq!(parse_keep_f32(&args(&["q", "a", "b", "f16"])).unwrap(), Vec::<String>::new());
}

#[test]
fn keep_lists_are_split_and_trimmed() {
    assert_eq!(
        parse_keep_f32(&args(&["--keep-f32", " output_head , ,layers.3.,\tx\u{3000} "])).unwrap(),
        vec!["output_head", "layers.3.", "x"]
    );
    assert_eq!(split_keep_list(""), Vec::<String>::new());
    assert_eq!(split_keep_list(",,"), Vec::<String>::new());
    assert_eq!(split_keep_list("a"), vec!["a"]);
}

#[test]
fn only_unkept_matrices_are_converted() {
    let keep = args(&["output_head", "transformer_stack.layers.19."]);
    assert!(quantizes("transformer_stack.layers.0.ff.weight", 2, &keep));
    assert!(!quantizes("transformer_stack.layers.0.ff.bias", 1, &keep));
    assert!(!quantizes("transformer_stack.layers.0.norm.weight", 1, &keep));
    assert!(!quantizes("transformer_stack.layers.0.scale", 2, &keep));
    assert!(!quantizes("output_head.hidden_layer.weight", 2, &keep));
    assert!(!quantizes("transformer_stack.layers.19.attn.weight", 2, &keep));
    assert!(quantizes("transformer_stack.layers.1.attn.weight", 2, &keep));
    assert!(keeps_f32("output_head", &keep));
    assert!(!keeps_f32("output", &keep));
}

#[test]
fn config_is_stamped_once() {
    let stamped = stamp_precision("{\"a\": 1}", QuantizationPrecision::F16);
    assert_eq!(stamped, "{\n  \"precision\": \"f16\",\"a\": 1}");
    assert_eq!(stamp_precision(&stamped, QuantizationPrecision::F16), stamped);
    assert_eq!(
        stamp_precision("x{}", QuantizationPrecision::F32),
        "x{\n  \"precision\": \"f32\",}"
    );
    assert_eq!(stamp_precision("no brace", QuantizationPrecision::F16), "no brace");
    let declared = "{\"precision\": \"f32\"}";
    assert_eq!(stamp_precision(declared, QuantizationPrecision::F16), declared);
}

#[test]
fn ultra_keeps_everything_balanced_keeps() {
    let balanced = parse_keep_f32(&args(&["--preset", "balanced"])).unwrap();
    let ultra = parse_keep_f32(&args(&["--preset", "ultra"])).unwrap();
    let names = [
        "output_head.weight",
        "pre_transformer_resblock.hidden_layer.weight",
        "transformer_stack.layers.17.ff0.weight",
        "transformer_stack.layers.19.seq_attn.query_proj.weight",
        "transformer_stack.layers.15.ff1.weight",
        "transformer_stack.layers.1.ff1.weight",
    ];
    for name in names {
        if keeps_f32(name, &balanced) {
            assert!(keeps_f32(name, &ultra), "{name}");
        }
    }
    assert!(keeps_f32("transformer_stack.layers.15.ff1.weight", &ultra));
    assert!(!keeps_f32("transformer_stack.layers.15.ff1.weight", &balanced));
    assert!(!keeps_f32("transformer_stack.layers.1.ff1.weight", &ultra));
}
