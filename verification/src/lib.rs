pub mod batching;
pub mod checkpoint;
pub mod checkpoint_law;
pub mod config;
pub mod decode;
pub mod inspect;
pub mod json;
pub mod json_print;
pub mod layout;
pub mod mixing;
pub mod pipeline;
pub mod quantize;
pub mod table;
pub mod tensor;
pub mod text;
