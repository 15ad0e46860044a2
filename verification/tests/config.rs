use timesfm3::config::{
    Activation, ConfigError, ConfigScalar, ModelConfig, Norm, QuantizationPrecision,
    ResidualBlockConfig, StackedTransformersConfig, TransformerConfig,
};
use timesfm3::json::Json;

#[test]
fn config_json_parses_official_shape() {
    let src = br#"{
      "input_patch_len": 32, "output_patch_len": 64,
      "quantiles": [0.1, 0.2, 0.3, 0.4, 0.5, 0.6, 0.7, 0.8, 0.9],
      "residual_block_config": {"hidden_dims": 1280, "output_dims": 1280,
        "use_bias": false, "activation": "relu", "prenorm": "none"},
      "transformer_config": {"num_layers": 20, "transformer": {
        "model_dims": 1280, "hidden_dims": 1280, "num_heads": 16,
        "use_rope_seq": true, "use_rope_var": false, "qk_norm": "rms",
        "ff_activation": "relu", "use_sdpa": true}}
    }"#;
    let root = Json::parse(src).unwrap();
    let mut cfg = ModelConfig::default();
    cfg.from_config_json(&root).unwrap();
    assert_eq!(cfg.input_patch_len, 32);
    assert_eq!(cfg.num_quantiles, 9);
    assert_eq!(cfg.transformer_config.num_layers, 20);
    assert_eq!(cfg.transformer_config.transformer.model_dims, 1280);
    assert_eq!(cfg.transformer_config.transformer.qk_norm, Norm::Rms);
    assert!(cfg.validate().is_ok());
}

#[test]
fn config_validate_accepts_default_rejects_broken() {
    ModelConfig::default()
        .validate()
        .expect("default must validate");

    let bad_patch = ModelConfig {
        output_patch_len: 33,
        ..Default::default()
    };
    assert!(bad_patch.validate().is_err());

    let mut bad_dims = ModelConfig::default();
    bad_dims.residual_block_config.output_dims = 64;
    assert!(bad_dims.validate().is_err());

    let bad_q0 = ModelConfig {
        num_quantiles: 0,
        ..Default::default()
    };
    assert!(bad_q0.validate().is_err());

    let mut bad_med = ModelConfig::default();
    bad_med.median_quantile_index = bad_med.num_quantiles;
    assert!(bad_med.validate().is_err());

    let mut cfg = ModelConfig::default();
    let arr = Json::parse(b"[1,2]").unwrap();
    assert!(cfg.from_config_json(&arr).is_err());
}

#[test]
fn quantization_precision_parse() {
    assert_eq!(QuantizationPrecision::parse("f16"), Some(QuantizationPrecision::F16));
    assert_eq!(QuantizationPrecision::parse("F16"), Some(QuantizationPrecision::F16));
    assert_eq!(QuantizationPrecision::parse("fp16"), Some(QuantizationPrecision::F16));
    assert_eq!(QuantizationPrecision::parse("f32"), Some(QuantizationPrecision::F32));
    assert_eq!(QuantizationPrecision::parse("fp32"), Some(QuantizationPrecision::F32));
    assert_eq!(QuantizationPrecision::parse("int8"), None);
    assert_eq!(QuantizationPrecision::parse(""), None);
    assert_eq!(QuantizationPrecision::default(), QuantizationPrecision::F32);
}

#[test]
fn names_of_activations_and_norms() {
    assert_eq!(Activation::from_name("relu"), Some(Activation::Relu));
    assert_eq!(Activation::from_name("swish"), Some(Activation::Swish));
    assert_eq!(Activation::from_name("silu"), Some(Activation::Swish));
    assert_eq!(Activation::from_name("none"), Some(Activation::Identity));
    assert_eq!(Activation::from_name("ReLU"), None);
    assert_eq!(Norm::from_name("rms"), Some(Norm::Rms));
    assert_eq!(Norm::from_name("none"), Some(Norm::None_));
    assert_eq!(Norm::from_name("layer"), None);
    assert_eq!(Activation::default(), Activation::Relu);
    assert_eq!(Norm::default(), Norm::None_);
    assert_eq!(QuantizationPrecision::parse("Fp16"), Some(QuantizationPrecision::F16));
}

#[test]
fn defaults_are_the_official_shapes() {
    let rb = ResidualBlockConfig::default();
    assert_eq!((rb.hidden_dims, rb.output_dims, rb.use_bias), (1280, 1280, false));
    let t = TransformerConfig::default();
    assert_eq!((t.model_dims, t.num_heads, t.causal_attention), (1280, 16, true));
    assert_eq!(StackedTransformersConfig::default().num_layers, 20);
    let c = ModelConfig::default();
    assert_eq!((c.input_patch_len, c.output_patch_len, c.rolls), (32, 64, 2));
    assert_eq!((c.num_quantiles, c.median_quantile_index), (9, 4));
    assert!(matches!(&c.value_clip, ConfigScalar::Number(t) if t == "1e20"));
    assert!(matches!(&c.linear_detrending_threshold, ConfigScalar::Number(t) if t == "0.5"));
    assert_eq!(c.input_transform, "identity");
}

#[test]
fn overlay_keeps_missing_and_mistyped_fields() {
    let root = Json::parse(
        br#"{"input_patch_len": 16, "output_patch_len": "64", "use_stitching": 0,
            "value_clip": 7, "linear_detrending_threshold": "x", "input_transform": "log",
            "precision": "FP16", "quantiles": [0.5, 0.6, 0.7],
            "residual_block_config": {"activation": "gelu", "prenorm": "rms"},
            "transformer_config": {"transformer": {"ff_activation": "silu", "v_norm": "odd"}}}"#,
    )
    .unwrap();
    let mut cfg = ModelConfig::default();
    cfg.from_config_json(&root).unwrap();
    assert_eq!(cfg.input_patch_len, 16);
    assert_eq!(cfg.output_patch_len, 64); // a string is not an integer
    assert!(cfg.use_stitching); // 0 is not a boolean
    assert!(matches!(cfg.value_clip, ConfigScalar::Int(7)));
    assert!(matches!(cfg.linear_detrending_threshold, ConfigScalar::NotANumber));
    assert_eq!(cfg.input_transform, "log");
    assert_eq!(cfg.precision, QuantizationPrecision::F16);
    assert!(cfg.precision_declared);
    assert_eq!(cfg.num_quantiles, 3);
    assert_eq!(cfg.median_quantile_index, 1); // 4 no longer fits: moved to 3 / 2
    assert_eq!(cfg.residual_block_config.activation, Activation::Relu); // unknown name
    assert_eq!(cfg.residual_block_config.prenorm, Norm::Rms);
    assert_eq!(cfg.transformer_config.transformer.ff_activation, Activation::Swish);
    assert_eq!(cfg.transformer_config.transformer.v_norm, Norm::None_);
    assert_eq!(cfg.rolls, 4);
}

#[test]
fn precision_falls_back_to_dtype_only_when_absent() {
    let mut cfg = ModelConfig::default();
    cfg.from_config_json(&Json::parse(br#"{"dtype": "f16"}"#).unwrap()).unwrap();
    assert_eq!(cfg.precision, QuantizationPrecision::F16);
    assert!(cfg.precision_declared);

    let mut cfg = ModelConfig::default();
    cfg.from_config_json(&Json::parse(br#"{"precision": 16, "dtype": "f16"}"#).unwrap())
        .unwrap();
    assert_eq!(cfg.precision, QuantizationPrecision::F32);
    assert!(!cfg.precision_declared);

    let mut cfg = ModelConfig::default();
    cfg.from_config_json(&Json::parse(br#"{"precision": "int4"}"#).unwrap())
        .unwrap();
    assert!(!cfg.precision_declared);
}

#[test]
fn validation_errors_are_distinguished() {
    let c = ModelConfig { output_patch_len: 33, ..Default::default() };
    assert_eq!(c.validate(), Err(ConfigError::PatchLenNotMultiple));
    let mut c = ModelConfig::default();
    c.transformer_config.transformer.model_dims = 8;
    assert_eq!(c.validate(), Err(ConfigError::DimsMismatch));
    let c = ModelConfig { median_quantile_index: 9, ..Default::default() };
    assert_eq!(c.validate(), Err(ConfigError::MedianOutOfRange));
    let c = ModelConfig { input_patch_len: 0, output_patch_len: 0, ..Default::default() };
    assert_eq!(c.validate(), Ok(()));
    let c = ModelConfig { input_patch_len: 0, ..Default::default() };
    assert_eq!(c.validate(), Err(ConfigError::PatchLenNotMultiple));
    let mut cfg = ModelConfig::default();
    assert_eq!(
        cfg.from_config_json(&Json::parse(b"3").unwrap()),
        Err(ConfigError::NotAnObject)
    );
}

#[test]
fn precision_names_ignore_ascii_case_only() {
    for s in ["Fp16", "fP32", "F32", "f16", "fp 16", " f16", "bf16", "ＦＰ16"] {
        assert_eq!(QuantizationPrecision::parse(s), QuantizationPrecision::parse(&s.to_ascii_lowercase()), "{s:?}");
    }
    assert_eq!(QuantizationPrecision::parse(" f16"), None);
}
