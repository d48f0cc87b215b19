pub mod wire;
pub mod cdr_error;
pub mod encoding;
pub mod utf16;
pub mod unicode;
pub mod arrays;
pub mod decoder;
pub mod encoder;
pub mod codec;
pub mod primitive;
pub mod laws;
pub mod text;
pub mod parse_error;
pub mod parser;
pub mod render;
pub mod generator;
pub mod runtime;
pub mod layout;
pub mod workspace;

pub use generator::{GeneratorConfig, MessageGenerator};
pub use parser::{Field, MessageType, StructNameStyle};
pub mod generation_laws;
