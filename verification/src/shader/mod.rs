pub mod error;
pub mod pre_processor;
pub mod read;
pub mod service;
pub mod skuggbox_shader;
pub mod store;

pub use error::ShaderError;
pub use store::SourceStore;
