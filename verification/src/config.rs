//! Model configuration: the defaults of TimesFM 3.0, the overlay of a
//! checkpoint's `config.json`, and the cross-field checks.
//!
//! The two real-valued settings (`value_clip`, `linear_detrending_threshold`)
//! are kept as the config gave them, see [`ConfigScalar`].
use vstd::prelude::*;
use crate::json::{Json, JsonSpec, json_obj_view, lemma_seq_view_index, lookup, obj_get};
use crate::text::{ascii_lowercase, ascii_lowercase_chars, chars_eq, lower_char, str_eq};

verus! {

/// Activation functions supported by the engine.
#[derive(Debug, Clone, Copy, PartialEq, Eq, Structural)]
pub enum Activation {
    Relu,
    Swish,
    Identity,
}

impl Default for Activation {
    fn default() -> (r: Activation)
        ensures
            r == Activation::Relu,
    {
        Activation::Relu
    }
}

/// The activation a config string names.
pub open spec fn activation_named(s: Seq<char>) -> Option<Activation> {
    if s == "relu"@ {
        Some(Activation::Relu)
    } else if s == "swish"@ || s == "silu"@ {
        Some(Activation::Swish)
    } else if s == "none"@ {
        Some(Activation::Identity)
    } else {
        None
    }
}

impl Activation {
    pub fn from_name(name: &str) -> (r: Option<Activation>)
        ensures
            r == activation_named(name@),
    {
        if str_eq(name, "relu") {
            Some(Activation::Relu)
        } else if str_eq(name, "swish") || str_eq(name, "silu") {
            Some(Activation::Swish)
        } else if str_eq(name, "none") {
            Some(Activation::Identity)
        } else {
            None
        }
    }
}

/// Normalization flavor.
#[derive(Debug, Clone, Copy, PartialEq, Eq, Structural)]
pub enum Norm {
    None_,
    Rms,
}

impl Default for Norm {
    fn default() -> (r: Norm)
        ensures
            r == Norm::None_,
    {
        Norm::None_
    }
}

/// The normalization a config string names.
pub open spec fn norm_named(s: Seq<char>) -> Option<Norm> {
    if s == "rms"@ {
        Some(Norm::Rms)
    } else if s == "none"@ {
        Some(Norm::None_)
    } else {
        None
    }
}

impl Norm {
    pub fn from_name(name: &str) -> (r: Option<Norm>)
        ensures
            r == norm_named(name@),
    {
        if str_eq(name, "rms") {
            Some(Norm::Rms)
        } else if str_eq(name, "none") {
            Some(Norm::None_)
        } else {
            None
        }
    }
}

/// Quantization precision for model weights.
#[derive(Debug, Clone, Copy, PartialEq, Eq, Structural)]
pub enum QuantizationPrecision {
    F32,
    F16,
}

impl Default for QuantizationPrecision {
    fn default() -> (r: QuantizationPrecision)
        ensures
            r == QuantizationPrecision::F32,
    {
        QuantizationPrecision::F32
    }
}

/// The precision a string names, in any ASCII case.
pub open spec fn precision_named(s: Seq<char>) -> Option<QuantizationPrecision> {
    let l = ascii_lowercase(s);
    if l == "f32"@ || l == "fp32"@ {
        Some(QuantizationPrecision::F32)
    } else if l == "f16"@ || l == "fp16"@ {
        Some(QuantizationPrecision::F16)
    } else {
        None
    }
}

impl QuantizationPrecision {
    pub fn parse(s: &str) -> (r: Option<Self>)
        ensures
            r == precision_named(s@),
    {
        let l = ascii_lowercase_chars(s);
        let f32_name = crate::text::chars_of("f32");
        let fp32_name = crate::text::chars_of("fp32");
        let f16_name = crate::text::chars_of("f16");
        let fp16_name = crate::text::chars_of("fp16");
        if chars_eq(&l, &f32_name) || chars_eq(&l, &fp32_name) {
            Some(Self::F32)
        } else if chars_eq(&l, &f16_name) || chars_eq(&l, &fp16_name) {
            Some(Self::F16)
        } else {
            None
        }
    }
}

/// A precision name reads the same as its ASCII lower-casing: case does
/// not matter, and nothing else about the text is changed.
pub proof fn lemma_precision_case_blind(s: Seq<char>)
    ensures
        precision_named(s) == precision_named(ascii_lowercase(s)),
{
    assert forall|i: int| 0 <= i < s.len() implies lower_char(lower_char(s[i])) == lower_char(s[i]) by {
        let c = s[i];
        if 'A' <= c && c <= 'Z' {
            assert((c as u8) as int == c as int);
            assert(lower_char(c) as int == c as int + 32);
        }
    }
    assert(ascii_lowercase(ascii_lowercase(s)) =~= ascii_lowercase(s));
}

/// Config for the pre-transformer residual block
/// (official: hidden=1280, output=1280, bias=false, relu, no prenorm).
#[derive(Debug, Clone, Copy, PartialEq, Eq, Structural)]
pub struct ResidualBlockConfig {
    pub hidden_dims: usize,
    pub output_dims: usize,
    pub use_bias: bool,
    pub activation: Activation,
    /// If true, the residual branch is the identity instead of a linear layer.
    pub identity_skip: bool,
    /// rms pre-norm before the hidden layer (false for the official 3.0 block).
    pub prenorm: Norm,
}

pub open spec fn default_residual_block() -> ResidualBlockConfig {
    ResidualBlockConfig {
        hidden_dims: 1280,
        output_dims: 1280,
        use_bias: false,
        activation: Activation::Relu,
        identity_skip: false,
        prenorm: Norm::None_,
    }
}

impl Default for ResidualBlockConfig {
    fn default() -> (r: Self)
        ensures
            r == default_residual_block(),
    {
        ResidualBlockConfig {
            hidden_dims: 1280,
            output_dims: 1280,
            use_bias: false,
            activation: Activation::Relu,
            identity_skip: false,
            prenorm: Norm::None_,
        }
    }
}

/// Per-layer transformer configuration (official `TransformerConfig`).
#[derive(Debug, Clone, Copy, PartialEq, Eq, Structural)]
pub struct TransformerConfig {
    pub model_dims: usize,
    pub hidden_dims: usize,
    pub num_heads: usize,
    pub attention_norm: Norm,
    pub feedforward_norm: Norm,
    pub qk_norm: Norm,
    pub use_rope_seq: bool,
    pub use_rope_var: bool,
    pub use_bias: bool,
    pub ff_activation: Activation,
    pub v_norm: Norm,
    pub causal_attention: bool,
    /// True = scaled-dot-product path (scale = sqrt(head_dim));
    /// False = manual path (Q pre-multiplied by sqrt(head_dim), large
    /// negative mask bias).
    pub use_sdpa: bool,
    pub use_memory_efficient_attention: bool,
}

pub open spec fn default_transformer() -> TransformerConfig {
    TransformerConfig {
        model_dims: 1280,
        hidden_dims: 1280,
        num_heads: 16,
        attention_norm: Norm::Rms,
        feedforward_norm: Norm::Rms,
        qk_norm: Norm::Rms,
        use_rope_seq: true,
        use_rope_var: false,
        use_bias: false,
        ff_activation: Activation::Relu,
        v_norm: Norm::None_,
        causal_attention: true,
        use_sdpa: true,
        use_memory_efficient_attention: true,
    }
}

impl Default for TransformerConfig {
    fn default() -> (r: Self)
        ensures
            r == default_transformer(),
    {
        TransformerConfig {
            model_dims: 1280,
            hidden_dims: 1280,
            num_heads: 16,
            attention_norm: Norm::Rms,
            feedforward_norm: Norm::Rms,
            qk_norm: Norm::Rms,
            use_rope_seq: true,
            use_rope_var: false,
            use_bias: false,
            ff_activation: Activation::Relu,
            v_norm: Norm::None_,
            causal_attention: true,
            use_sdpa: true,
            use_memory_efficient_attention: true,
        }
    }
}

/// Stacked transformer config (official `StackedTransformersConfig`).
#[derive(Debug, Clone, Copy, PartialEq, Eq, Structural)]
pub struct StackedTransformersConfig {
    pub num_layers: usize,
    pub transformer: TransformerConfig,
}

pub open spec fn default_stacked() -> StackedTransformersConfig {
    StackedTransformersConfig { num_layers: 20, transformer: default_transformer() }
}

impl Default for StackedTransformersConfig {
    fn default() -> (r: Self)
        ensures
            r == default_stacked(),
    {
        StackedTransformersConfig { num_layers: 20, transformer: TransformerConfig::default() }
    }
}

/// A real-valued setting as the config gave it; it becomes a float where
/// the model runs.
pub enum ConfigScalar {
    /// A non-negative integer literal.
    Int(u64),
    /// The text of any other number literal.
    Number(String),
    /// A value that is not a number, which counts as zero.
    NotANumber,
}

/// Model of [`ConfigScalar`].
pub enum ScalarSpec {
    Int(u64),
    Number(Seq<char>),
    NotANumber,
}

impl View for ConfigScalar {
    type V = ScalarSpec;

    open spec fn view(&self) -> ScalarSpec {
        match self {
            ConfigScalar::Int(n) => ScalarSpec::Int(*n),
            ConfigScalar::Number(t) => ScalarSpec::Number(t@),
            ConfigScalar::NotANumber => ScalarSpec::NotANumber,
        }
    }
}

/// The scalar a JSON value gives.
pub open spec fn scalar_of(v: JsonSpec) -> ScalarSpec {
    match v {
        JsonSpec::Int(n) => ScalarSpec::Int(n),
        JsonSpec::Float(t) => ScalarSpec::Number(t),
        _ => ScalarSpec::NotANumber,
    }
}

fn scalar_from_json(v: &Json) -> (r: ConfigScalar)
    ensures
        r@ == scalar_of(v@),
{
    match v {
        Json::Int(n) => ConfigScalar::Int(*n),
        Json::Float(t) => ConfigScalar::Number(t.clone()),
        _ => ConfigScalar::NotANumber,
    }
}

/// Full model config, mirroring the official `TimesFM3Torch` attributes and
/// the `config.json` of a checkpoint (read at load time).
pub struct ModelConfig {
    pub input_patch_len: usize,
    pub output_patch_len: usize,
    pub num_quantiles: usize,
    pub median_quantile_index: usize,
    pub residual_block_config: ResidualBlockConfig,
    pub transformer_config: StackedTransformersConfig,
    pub use_variate_attention: bool,
    pub value_clip: ConfigScalar,
    pub use_stitching: bool,
    pub use_linear_detrending: bool,
    pub linear_detrending_threshold: ConfigScalar,
    pub use_iterative_cpm_revin: bool,
    pub use_frozen_running_stats: bool,
    pub input_transform: String,
    /// output_patch_len / input_patch_len.
    pub rolls: usize,
    /// Weight storage precision (F32, F16).
    pub precision: QuantizationPrecision,
    /// True when the checkpoint's own `config.json` declared a `precision`
    /// field. The per-tensor dtypes on disk are then authoritative (the
    /// checkpoint may be mixed) and the loader must not convert every
    /// weight to `precision`.
    pub precision_declared: bool,
}

/// Model of [`ModelConfig`].
pub struct ModelConfigSpec {
    pub input_patch_len: usize,
    pub output_patch_len: usize,
    pub num_quantiles: usize,
    pub median_quantile_index: usize,
    pub residual_block_config: ResidualBlockConfig,
    pub transformer_config: StackedTransformersConfig,
    pub use_variate_attention: bool,
    pub value_clip: ScalarSpec,
    pub use_stitching: bool,
    pub use_linear_detrending: bool,
    pub linear_detrending_threshold: ScalarSpec,
    pub use_iterative_cpm_revin: bool,
    pub use_frozen_running_stats: bool,
    pub input_transform: Seq<char>,
    pub rolls: usize,
    pub precision: QuantizationPrecision,
    pub precision_declared: bool,
}

impl View for ModelConfig {
    type V = ModelConfigSpec;

    open spec fn view(&self) -> ModelConfigSpec {
        ModelConfigSpec {
            input_patch_len: self.input_patch_len,
            output_patch_len: self.output_patch_len,
            num_quantiles: self.num_quantiles,
            median_quantile_index: self.median_quantile_index,
            residual_block_config: self.residual_block_config,
            transformer_config: self.transformer_config,
            use_variate_attention: self.use_variate_attention,
            value_clip: self.value_clip@,
            use_stitching: self.use_stitching,
            use_linear_detrending: self.use_linear_detrending,
            linear_detrending_threshold: self.linear_detrending_threshold@,
            use_iterative_cpm_revin: self.use_iterative_cpm_revin,
            use_frozen_running_stats: self.use_frozen_running_stats,
            input_transform: self.input_transform@,
            rolls: self.rolls,
            precision: self.precision,
            precision_declared: self.precision_declared,
        }
    }
}

/// The TimesFM 3.0 defaults.
pub open spec fn default_config() -> ModelConfigSpec {
    ModelConfigSpec {
        input_patch_len: 32,
        output_patch_len: 64,
        num_quantiles: 9,
        median_quantile_index: 4,
        residual_block_config: default_residual_block(),
        transformer_config: default_stacked(),
        use_variate_attention: true,
        value_clip: ScalarSpec::Number("1e20"@),
        use_stitching: true,
        use_linear_detrending: true,
        linear_detrending_threshold: ScalarSpec::Number("0.5"@),
        use_iterative_cpm_revin: true,
        use_frozen_running_stats: false,
        input_transform: "identity"@,
        rolls: 2,
        precision: QuantizationPrecision::F32,
        precision_declared: false,
    }
}

impl Default for ModelConfig {
    fn default() -> (r: Self)
        ensures
            r@ == default_config(),
    {
        ModelConfig {
            input_patch_len: 32,
            output_patch_len: 64,
            num_quantiles: 9,
            median_quantile_index: 4,
            residual_block_config: ResidualBlockConfig::default(),
            transformer_config: StackedTransformersConfig::default(),
            use_variate_attention: true,
            value_clip: ConfigScalar::Number("1e20".to_owned()),
            use_stitching: true,
            use_linear_detrending: true,
            linear_detrending_threshold: ConfigScalar::Number("0.5".to_owned()),
            use_iterative_cpm_revin: true,
            use_frozen_running_stats: false,
            input_transform: "identity".to_owned(),
            rolls: 2,
            precision: QuantizationPrecision::F32,
            precision_declared: false,
        }
    }
}

/// Why a config was refused.
#[derive(Debug, Clone, Copy, PartialEq, Eq, Structural)]
pub enum ConfigError {
    /// `config.json` is not an object.
    NotAnObject,
    /// `output_patch_len` is not a multiple of `input_patch_len`.
    PatchLenNotMultiple,
    /// The residual block's `output_dims` differs from the transformer's `model_dims`.
    DimsMismatch,
    /// `median_quantile_index` is not below `num_quantiles`.
    MedianOutOfRange,
}

/// Whether `a` is a multiple of `b`, as `usize::is_multiple_of` decides it
/// (only 0 is a multiple of 0).
pub open spec fn is_multiple(a: usize, b: usize) -> bool {
    if b == 0 {
        a == 0
    } else {
        a % b == 0
    }
}

/// The first cross-field check a config fails, if any.
pub open spec fn validation(c: ModelConfigSpec) -> Result<(), ConfigError> {
    if !is_multiple(c.output_patch_len, c.input_patch_len) {
        Err(ConfigError::PatchLenNotMultiple)
    } else if c.residual_block_config.output_dims != c.transformer_config.transformer.model_dims {
        Err(ConfigError::DimsMismatch)
    } else if c.num_quantiles == 0 || c.median_quantile_index >= c.num_quantiles {
        Err(ConfigError::MedianOutOfRange)
    } else {
        Ok(())
    }
}

// ---------------------------------------------------------------------------
// The config.json overlay
// ---------------------------------------------------------------------------

/// An integer field: its value where it is an integer, else `old`.
pub open spec fn int_or(m: Seq<(Seq<char>, JsonSpec)>, key: Seq<char>, old: usize) -> usize {
    match lookup(m, key) {
        Some(JsonSpec::Int(v)) => v as usize,
        _ => old,
    }
}

/// A boolean field: its value where it is a boolean, else `old`.
pub open spec fn bool_or(m: Seq<(Seq<char>, JsonSpec)>, key: Seq<char>, old: bool) -> bool {
    match lookup(m, key) {
        Some(JsonSpec::Bool(b)) => b,
        _ => old,
    }
}

/// An activation field: where it is a string, the activation it names
/// (`Relu` for an unknown name), else `old`.
pub open spec fn activation_or(m: Seq<(Seq<char>, JsonSpec)>, key: Seq<char>, old: Activation) -> Activation {
    match lookup(m, key) {
        Some(JsonSpec::Str(s)) => match activation_named(s) {
            Some(a) => a,
            None => Activation::Relu,
        },
        _ => old,
    }
}

/// A normalization field: where it is a string, the norm it names (`None_`
/// for an unknown name), else `old`.
pub open spec fn norm_or(m: Seq<(Seq<char>, JsonSpec)>, key: Seq<char>, old: Norm) -> Norm {
    match lookup(m, key) {
        Some(JsonSpec::Str(s)) => match norm_named(s) {
            Some(a) => a,
            None => Norm::None_,
        },
        _ => old,
    }
}

pub open spec fn residual_overlay(rb: ResidualBlockConfig, m: Seq<(Seq<char>, JsonSpec)>) -> ResidualBlockConfig {
    ResidualBlockConfig {
        hidden_dims: int_or(m, "hidden_dims"@, rb.hidden_dims),
        output_dims: int_or(m, "output_dims"@, rb.output_dims),
        use_bias: bool_or(m, "use_bias"@, rb.use_bias),
        activation: activation_or(m, "activation"@, rb.activation),
        identity_skip: bool_or(m, "identity_skip"@, rb.identity_skip),
        prenorm: norm_or(m, "prenorm"@, rb.prenorm),
    }
}

pub open spec fn transformer_overlay(t: TransformerConfig, m: Seq<(Seq<char>, JsonSpec)>) -> TransformerConfig {
    TransformerConfig {
        model_dims: int_or(m, "model_dims"@, t.model_dims),
        hidden_dims: int_or(m, "hidden_dims"@, t.hidden_dims),
        num_heads: int_or(m, "num_heads"@, t.num_heads),
        attention_norm: norm_or(m, "attention_norm"@, t.attention_norm),
        feedforward_norm: norm_or(m, "feedforward_norm"@, t.feedforward_norm),
        qk_norm: norm_or(m, "qk_norm"@, t.qk_norm),
        use_rope_seq: bool_or(m, "use_rope_seq"@, t.use_rope_seq),
        use_rope_var: bool_or(m, "use_rope_var"@, t.use_rope_var),
        use_bias: bool_or(m, "use_bias"@, t.use_bias),
        ff_activation: activation_or(m, "ff_activation"@, t.ff_activation),
        v_norm: norm_or(m, "v_norm"@, t.v_norm),
        causal_attention: bool_or(m, "causal_attention"@, t.causal_attention),
        use_sdpa: bool_or(m, "use_sdpa"@, t.use_sdpa),
        use_memory_efficient_attention: bool_or(
            m,
            "use_memory_efficient_attention"@,
            t.use_memory_efficient_attention,
        ),
    }
}

pub open spec fn stacked_overlay(sc: StackedTransformersConfig, m: Seq<(Seq<char>, JsonSpec)>) -> StackedTransformersConfig {
    StackedTransformersConfig {
        num_layers: int_or(m, "num_layers"@, sc.num_layers),
        transformer: match lookup(m, "transformer"@) {
            Some(JsonSpec::Obj(tc)) => transformer_overlay(sc.transformer, tc),
            _ => sc.transformer,
        },
    }
}

/// The precision a config declares: `precision`, or `dtype` where
/// `precision` is absent, if it is a string that names one.
pub open spec fn declared_precision(m: Seq<(Seq<char>, JsonSpec)>) -> Option<QuantizationPrecision> {
    let field = match lookup(m, "precision"@) {
        Some(v) => Some(v),
        None => lookup(m, "dtype"@),
    };
    match field {
        Some(JsonSpec::Str(s)) => precision_named(s),
        _ => None,
    }
}

/// The number of quantiles after the overlay.
pub open spec fn quantiles_or(m: Seq<(Seq<char>, JsonSpec)>, old: usize) -> usize {
    match lookup(m, "quantiles"@) {
        Some(JsonSpec::Arr(a)) => a.len() as usize,
        _ => old,
    }
}

/// `input_patch_len` after the overlay.
pub open spec fn overlaid_input_patch_len(c: ModelConfigSpec, m: Seq<(Seq<char>, JsonSpec)>) -> usize {
    int_or(m, "input_patch_len"@, c.input_patch_len)
}

/// The config after overlaying the members `m` of a `config.json`: known
/// fields of the right JSON type replace the current values, everything
/// else is kept; `rolls` is recomputed.
pub open spec fn config_overlay(c: ModelConfigSpec, m: Seq<(Seq<char>, JsonSpec)>) -> ModelConfigSpec {
    let input_patch_len = int_or(m, "input_patch_len"@, c.input_patch_len);
    let output_patch_len = int_or(m, "output_patch_len"@, c.output_patch_len);
    let num_quantiles = quantiles_or(m, c.num_quantiles);
    ModelConfigSpec {
        input_patch_len,
        output_patch_len,
        num_quantiles,
        median_quantile_index: if lookup(m, "quantiles"@) matches Some(JsonSpec::Arr(_))
            && c.median_quantile_index >= num_quantiles {
            num_quantiles / 2
        } else {
            c.median_quantile_index
        },
        residual_block_config: match lookup(m, "residual_block_config"@) {
            Some(JsonSpec::Obj(rc)) => residual_overlay(c.residual_block_config, rc),
            _ => c.residual_block_config,
        },
        transformer_config: match lookup(m, "transformer_config"@) {
            Some(JsonSpec::Obj(sc)) => stacked_overlay(c.transformer_config, sc),
            _ => c.transformer_config,
        },
        use_variate_attention: bool_or(m, "use_variate_attention"@, c.use_variate_attention),
        value_clip: match lookup(m, "value_clip"@) {
            Some(v) => scalar_of(v),
            None => c.value_clip,
        },
        use_stitching: bool_or(m, "use_stitching"@, c.use_stitching),
        use_linear_detrending: bool_or(m, "use_linear_detrending"@, c.use_linear_detrending),
        linear_detrending_threshold: match lookup(m, "linear_detrending_threshold"@) {
            Some(v) => scalar_of(v),
            None => c.linear_detrending_threshold,
        },
        use_iterative_cpm_revin: bool_or(m, "use_iterative_cpm_revin"@, c.use_iterative_cpm_revin),
        use_frozen_running_stats: bool_or(m, "use_frozen_running_stats"@, c.use_frozen_running_stats),
        input_transform: match lookup(m, "input_transform"@) {
            Some(JsonSpec::Str(s)) => s,
            _ => c.input_transform,
        },
        rolls: (output_patch_len / input_patch_len) as usize,
        precision: match declared_precision(m) {
            Some(p) => p,
            None => c.precision,
        },
        precision_declared: c.precision_declared || declared_precision(m) is Some,
    }
}

fn int_field(obj: &[(String, Json)], key: &str, old: usize) -> (r: usize)
    ensures
        r == int_or(json_obj_view(obj@), key@, old),
{
    match obj_get(obj, key) {
        Some(Json::Int(v)) => *v as usize,
        _ => old,
    }
}

fn bool_field(obj: &[(String, Json)], key: &str, old: bool) -> (r: bool)
    ensures
        r == bool_or(json_obj_view(obj@), key@, old),
{
    match obj_get(obj, key) {
        Some(Json::Bool(b)) => *b,
        _ => old,
    }
}

fn activation_field(obj: &[(String, Json)], key: &str, old: Activation) -> (r: Activation)
    ensures
        r == activation_or(json_obj_view(obj@), key@, old),
{
    match obj_get(obj, key) {
        Some(Json::Str(s)) => match Activation::from_name(s.as_str()) {
            Some(a) => a,
            None => Activation::default(),
        },
        _ => old,
    }
}

fn norm_field(obj: &[(String, Json)], key: &str, old: Norm) -> (r: Norm)
    ensures
        r == norm_or(json_obj_view(obj@), key@, old),
{
    match obj_get(obj, key) {
        Some(Json::Str(s)) => match Norm::from_name(s.as_str()) {
            Some(a) => a,
            None => Norm::default(),
        },
        _ => old,
    }
}

fn residual_from(rb: ResidualBlockConfig, rc: &[(String, Json)]) -> (r: ResidualBlockConfig)
    ensures
        r == residual_overlay(rb, json_obj_view(rc@)),
{
    ResidualBlockConfig {
        hidden_dims: int_field(rc, "hidden_dims", rb.hidden_dims),
        output_dims: int_field(rc, "output_dims", rb.output_dims),
        use_bias: bool_field(rc, "use_bias", rb.use_bias),
        activation: activation_field(rc, "activation", rb.activation),
        identity_skip: bool_field(rc, "identity_skip", rb.identity_skip),
        prenorm: norm_field(rc, "prenorm", rb.prenorm),
    }
}

fn transformer_from(t: TransformerConfig, tc: &[(String, Json)]) -> (r: TransformerConfig)
    ensures
        r == transformer_overlay(t, json_obj_view(tc@)),
{
    TransformerConfig {
        model_dims: int_field(tc, "model_dims", t.model_dims),
        hidden_dims: int_field(tc, "hidden_dims", t.hidden_dims),
        num_heads: int_field(tc, "num_heads", t.num_heads),
        attention_norm: norm_field(tc, "attention_norm", t.attention_norm),
        feedforward_norm: norm_field(tc, "feedforward_norm", t.feedforward_norm),
        qk_norm: norm_field(tc, "qk_norm", t.qk_norm),
        use_rope_seq: bool_field(tc, "use_rope_seq", t.use_rope_seq),
        use_rope_var: bool_field(tc, "use_rope_var", t.use_rope_var),
        use_bias: bool_field(tc, "use_bias", t.use_bias),
        ff_activation: activation_field(tc, "ff_activation", t.ff_activation),
        v_norm: norm_field(tc, "v_norm", t.v_norm),
        causal_attention: bool_field(tc, "causal_attention", t.causal_attention),
        use_sdpa: bool_field(tc, "use_sdpa", t.use_sdpa),
        use_memory_efficient_attention: bool_field(
            tc,
            "use_memory_efficient_attention",
            t.use_memory_efficient_attention,
        ),
    }
}

fn stacked_from(sc: StackedTransformersConfig, obj: &[(String, Json)]) -> (r: StackedTransformersConfig)
    ensures
        r == stacked_overlay(sc, json_obj_view(obj@)),
{
    let transformer = match obj_get(obj, "transformer") {
        Some(Json::Obj(tc)) => transformer_from(sc.transformer, tc.as_slice()),
        _ => sc.transformer,
    };
    StackedTransformersConfig { num_layers: int_field(obj, "num_layers", sc.num_layers), transformer }
}

fn precision_from(obj: &[(String, Json)]) -> (r: Option<QuantizationPrecision>)
    ensures
        r == declared_precision(json_obj_view(obj@)),
{
    let field = match obj_get(obj, "precision") {
        Some(v) => Some(v),
        None => obj_get(obj, "dtype"),
    };
    match field {
        Some(Json::Str(s)) => QuantizationPrecision::parse(s.as_str()),
        _ => None,
    }
}

impl ModelConfig {
    /// Checks the cross-field invariants of the model.
    pub fn validate(&self) -> (r: Result<(), ConfigError>)
        ensures
            r == validation(self@),
    {
        let multiple = if self.input_patch_len == 0 {
            self.output_patch_len == 0
        } else {
            self.output_patch_len % self.input_patch_len == 0
        };
        if !multiple {
            return Err(ConfigError::PatchLenNotMultiple);
        }
        if self.residual_block_config.output_dims != self.transformer_config.transformer.model_dims {
            return Err(ConfigError::DimsMismatch);
        }
        if self.num_quantiles == 0 || self.median_quantile_index >= self.num_quantiles {
            return Err(ConfigError::MedianOutOfRange);
        }
        Ok(())
    }

    /// Overlays the fields of a checkpoint's `config.json`. Unknown or
    /// missing fields, and fields of another JSON type, keep their values.
    pub fn from_config_json(&mut self, root: &Json) -> (r: Result<(), ConfigError>)
        requires
            root@ matches JsonSpec::Obj(m) ==> overlaid_input_patch_len(old(self)@, m) != 0,
        ensures
            match root@ {
                JsonSpec::Obj(m) => r == Ok::<(), ConfigError>(()) && final(self)@ == config_overlay(
                    old(self)@,
                    m,
                ),
                _ => r == Err::<(), ConfigError>(ConfigError::NotAnObject) && final(self)@ == old(
                    self,
                )@,
            },
    {
        let obj = match root.as_obj() {
            Some(o) => o,
            None => {
                return Err(ConfigError::NotAnObject);
            },
        };
        let input_patch_len = int_field(obj, "input_patch_len", self.input_patch_len);
        let output_patch_len = int_field(obj, "output_patch_len", self.output_patch_len);
        let (num_quantiles, median_quantile_index) = quantile_fields(
            obj,
            self.num_quantiles,
            self.median_quantile_index,
        );
        let residual_block_config = match obj_get(obj, "residual_block_config") {
            Some(Json::Obj(rc)) => residual_from(self.residual_block_config, rc.as_slice()),
            _ => self.residual_block_config,
        };
        let transformer_config = match obj_get(obj, "transformer_config") {
            Some(Json::Obj(sc)) => stacked_from(self.transformer_config, sc.as_slice()),
            _ => self.transformer_config,
        };
        let value_clip = scalar_field(obj, "value_clip", &self.value_clip);
        let linear_detrending_threshold = scalar_field(
            obj,
            "linear_detrending_threshold",
            &self.linear_detrending_threshold,
        );
        let input_transform = match obj_get(obj, "input_transform") {
            Some(Json::Str(s)) => s.clone(),
            _ => self.input_transform.clone(),
        };
        let declared = precision_from(obj);
        let (precision, precision_declared) = match declared {
            Some(p) => (p, true),
            None => (self.precision, self.precision_declared),
        };
        let updated = ModelConfig {
            input_patch_len,
            output_patch_len,
            num_quantiles,
            median_quantile_index,
            residual_block_config,
            transformer_config,
            use_variate_attention: bool_field(obj, "use_variate_attention", self.use_variate_attention),
            value_clip,
            use_stitching: bool_field(obj, "use_stitching", self.use_stitching),
            use_linear_detrending: bool_field(obj, "use_linear_detrending", self.use_linear_detrending),
            linear_detrending_threshold,
            use_iterative_cpm_revin: bool_field(
                obj,
                "use_iterative_cpm_revin",
                self.use_iterative_cpm_revin,
            ),
            use_frozen_running_stats: bool_field(
                obj,
                "use_frozen_running_stats",
                self.use_frozen_running_stats,
            ),
            input_transform,
            rolls: output_patch_len / input_patch_len,
            precision,
            precision_declared,
        };
        *self = updated;
        Ok(())
    }
}

/// `num_quantiles` and `median_quantile_index` after the overlay: a
/// `quantiles` array sets the count, and a median index that no longer fits
/// moves to the middle.
fn quantile_fields(obj: &[(String, Json)], num: usize, median: usize) -> (r: (usize, usize))
    ensures
        r.0 == quantiles_or(json_obj_view(obj@), num),
        r.1 == (if lookup(json_obj_view(obj@), "quantiles"@) matches Some(JsonSpec::Arr(_))
            && median >= r.0 {
            r.0 / 2
        } else {
            median
        }),
{
    match obj_get(obj, "quantiles") {
        Some(Json::Arr(a)) => {
            proof {
                lemma_seq_view_index(a@);
            }
            let n = a.len();
            if median >= n {
                (n, n / 2)
            } else {
                (n, median)
            }
        },
        _ => (num, median),
    }
}

fn scalar_field(obj: &[(String, Json)], key: &str, old: &ConfigScalar) -> (r: ConfigScalar)
    ensures
        r@ == (match lookup(json_obj_view(obj@), key@) {
            Some(v) => scalar_of(v),
            None => old@,
        }),
{
    match obj_get(obj, key) {
        Some(v) => scalar_from_json(v),
        None => match old {
            ConfigScalar::Int(n) => ConfigScalar::Int(*n),
            ConfigScalar::Number(t) => ConfigScalar::Number(t.clone()),
            ConfigScalar::NotANumber => ConfigScalar::NotANumber,
        },
    }
}

/// The defaults pass the cross-field checks.
pub proof fn lemma_default_config_valid()
    ensures
        validation(default_config()) == Ok::<(), ConfigError>(()),
{
}

} // verus!

verus! {

// ---------------------------------------------------------------------------
// Every setting comes from its own key
// ---------------------------------------------------------------------------

/// `v` is the boolean under `key`, or `old` where the key holds none.
pub open spec fn takes_bool(m: Seq<(Seq<char>, JsonSpec)>, key: Seq<char>, old: bool, v: bool) -> bool {
    match lookup(m, key) {
        Some(JsonSpec::Bool(b)) => v == b,
        _ => v == old,
    }
}

/// `v` is the integer under `key`, or `old` where the key holds none.
pub open spec fn takes_int(m: Seq<(Seq<char>, JsonSpec)>, key: Seq<char>, old: usize, v: usize) -> bool {
    match lookup(m, key) {
        Some(JsonSpec::Int(n)) => v == n as usize,
        _ => v == old,
    }
}

/// `v` is the norm the string under `key` names (`rms`; anything else
/// means none), or `old` where the key holds no string.
pub open spec fn takes_norm(m: Seq<(Seq<char>, JsonSpec)>, key: Seq<char>, old: Norm, v: Norm) -> bool {
    match lookup(m, key) {
        Some(JsonSpec::Str(s)) => v == (if s == "rms"@ { Norm::Rms } else { Norm::None_ }),
        _ => v == old,
    }
}

/// `v` is the activation the string under `key` names (`swish` or `silu`,
/// `none` for the identity; anything else is ReLU), or `old` where the key
/// holds no string.
pub open spec fn takes_activation(m: Seq<(Seq<char>, JsonSpec)>, key: Seq<char>, old: Activation, v: Activation) -> bool {
    match lookup(m, key) {
        Some(JsonSpec::Str(s)) => v == (if s == "swish"@ || s == "silu"@ {
            Activation::Swish
        } else if s == "none"@ {
            Activation::Identity
        } else {
            Activation::Relu
        }),
        _ => v == old,
    }
}

/// The settings of one transformer layer each come from their own key of
/// `tc`, or stay as they were.
pub open spec fn transformer_from_keys(tc: Seq<(Seq<char>, JsonSpec)>, t0: TransformerConfig, t: TransformerConfig) -> bool {
    &&& takes_int(tc, "model_dims"@, t0.model_dims, t.model_dims)
    &&& takes_int(tc, "hidden_dims"@, t0.hidden_dims, t.hidden_dims)
    &&& takes_int(tc, "num_heads"@, t0.num_heads, t.num_heads)
    &&& takes_norm(tc, "attention_norm"@, t0.attention_norm, t.attention_norm)
    &&& takes_norm(tc, "feedforward_norm"@, t0.feedforward_norm, t.feedforward_norm)
    &&& takes_norm(tc, "qk_norm"@, t0.qk_norm, t.qk_norm)
    &&& takes_bool(tc, "use_rope_seq"@, t0.use_rope_seq, t.use_rope_seq)
    &&& takes_bool(tc, "use_rope_var"@, t0.use_rope_var, t.use_rope_var)
    &&& takes_bool(tc, "use_bias"@, t0.use_bias, t.use_bias)
    &&& takes_activation(tc, "ff_activation"@, t0.ff_activation, t.ff_activation)
    &&& takes_norm(tc, "v_norm"@, t0.v_norm, t.v_norm)
    &&& takes_bool(tc, "causal_attention"@, t0.causal_attention, t.causal_attention)
    &&& takes_bool(tc, "use_sdpa"@, t0.use_sdpa, t.use_sdpa)
    &&& takes_bool(
        tc,
        "use_memory_efficient_attention"@,
        t0.use_memory_efficient_attention,
        t.use_memory_efficient_attention,
    )
}

/// The settings of the residual block each come from their own key of
/// `rc`, or stay as they were.
pub open spec fn residual_from_keys(rc: Seq<(Seq<char>, JsonSpec)>, b0: ResidualBlockConfig, b: ResidualBlockConfig) -> bool {
    &&& takes_int(rc, "hidden_dims"@, b0.hidden_dims, b.hidden_dims)
    &&& takes_int(rc, "output_dims"@, b0.output_dims, b.output_dims)
    &&& takes_bool(rc, "use_bias"@, b0.use_bias, b.use_bias)
    &&& takes_activation(rc, "activation"@, b0.activation, b.activation)
    &&& takes_bool(rc, "identity_skip"@, b0.identity_skip, b.identity_skip)
    &&& takes_norm(rc, "prenorm"@, b0.prenorm, b.prenorm)
}

proof fn lemma_named_choices()
    ensures
        forall|s: Seq<char>| #[trigger] norm_named(s) is None || norm_named(s) == Some(
            if s == "rms"@ { Norm::Rms } else { Norm::None_ },
        ),
        forall|s: Seq<char>|
            (#[trigger] activation_named(s) matches Some(a) ==> a == (if s == "swish"@ || s == "silu"@ {
                Activation::Swish
            } else if s == "none"@ {
                Activation::Identity
            } else {
                Activation::Relu
            })),
        forall|s: Seq<char>| #[trigger] norm_named(s) is None ==> s != "rms"@,
        forall|s: Seq<char>| #[trigger] activation_named(s) is None ==> s != "swish"@ && s != "silu"@ && s != "none"@,
{
    reveal_strlit("rms");
    reveal_strlit("none");
    reveal_strlit("relu");
    reveal_strlit("swish");
    reveal_strlit("silu");
    assert("rms"@ != "none"@) by {
        assert("rms"@.len() != "none"@.len());
    }
    assert("relu"@ != "swish"@ && "relu"@ != "silu"@ && "relu"@ != "none"@) by {
        assert("relu"@.len() != "swish"@.len());
        assert("relu"@[1] != "silu"@[1]);
        assert("relu"@[0] != "none"@[0]);
    }
    assert("swish"@ != "none"@ && "silu"@ != "none"@) by {
        assert("swish"@.len() != "none"@.len());
        assert("silu"@[0] != "none"@[0]);
    }
}

/// Overlaying a `config.json` object sets each setting from its own key:
/// where the key holds a value of the setting's kind the setting takes
/// it, otherwise the setting keeps its value. Nested blocks are read from
/// `residual_block_config` and `transformer_config.transformer`, and
/// `rolls` is the number of input patches in an output patch.
pub proof fn lemma_overlay_keys(c: ModelConfigSpec, m: Seq<(Seq<char>, JsonSpec)>)
    ensures
        ({
            let r = config_overlay(c, m);
            &&& takes_int(m, "input_patch_len"@, c.input_patch_len, r.input_patch_len)
            &&& takes_int(m, "output_patch_len"@, c.output_patch_len, r.output_patch_len)
            &&& takes_bool(m, "use_variate_attention"@, c.use_variate_attention, r.use_variate_attention)
            &&& takes_bool(m, "use_stitching"@, c.use_stitching, r.use_stitching)
            &&& takes_bool(m, "use_linear_detrending"@, c.use_linear_detrending, r.use_linear_detrending)
            &&& takes_bool(m, "use_iterative_cpm_revin"@, c.use_iterative_cpm_revin, r.use_iterative_cpm_revin)
            &&& takes_bool(m, "use_frozen_running_stats"@, c.use_frozen_running_stats, r.use_frozen_running_stats)
            &&& r.input_patch_len > 0 ==> r.rolls * r.input_patch_len <= r.output_patch_len < (r.rolls + 1)
                * r.input_patch_len
            &&& match lookup(m, "quantiles"@) {
                Some(JsonSpec::Arr(a)) => a.len() <= usize::MAX ==> {
                    &&& r.num_quantiles == a.len()
                    &&& r.median_quantile_index == (if c.median_quantile_index < a.len() {
                        c.median_quantile_index as int
                    } else {
                        (a.len() / 2) as int
                    })
                },
                _ => r.num_quantiles == c.num_quantiles && r.median_quantile_index == c.median_quantile_index,
            }
            &&& match lookup(m, "input_transform"@) {
                Some(JsonSpec::Str(t)) => r.input_transform == t,
                _ => r.input_transform == c.input_transform,
            }
            &&& match lookup(m, "residual_block_config"@) {
                Some(JsonSpec::Obj(rc)) => residual_from_keys(rc, c.residual_block_config, r.residual_block_config),
                _ => r.residual_block_config == c.residual_block_config,
            }
            &&& match lookup(m, "transformer_config"@) {
                Some(JsonSpec::Obj(sc)) => {
                    &&& takes_int(sc, "num_layers"@, c.transformer_config.num_layers, r.transformer_config.num_layers)
                    &&& match lookup(sc, "transformer"@) {
                        Some(JsonSpec::Obj(tc)) => transformer_from_keys(
                            tc,
                            c.transformer_config.transformer,
                            r.transformer_config.transformer,
                        ),
                        _ => r.transformer_config.transformer == c.transformer_config.transformer,
                    }
                },
                _ => r.transformer_config == c.transformer_config,
            }
        }),
{
    lemma_named_choices();
    let r = config_overlay(c, m);
    if r.input_patch_len > 0 {
        let i = r.input_patch_len as int;
        let o = r.output_patch_len as int;
        vstd::arithmetic::div_mod::lemma_fundamental_div_mod(o, i);
        vstd::arithmetic::div_mod::lemma_div_pos_is_pos(o, i);
        vstd::arithmetic::div_mod::lemma_div_is_ordered_by_denominator(o, 1, i);
        assert(r.rolls == o / i);
        assert(r.rolls * r.input_patch_len <= r.output_patch_len < (r.rolls + 1) * r.input_patch_len)
            by (nonlinear_arith)
            requires
                o == i * (o / i) + o % i,
                0 <= o % i < i,
                r.rolls == o / i,
                i == r.input_patch_len,
                o == r.output_patch_len,
        ;
    }
}

} // verus!
