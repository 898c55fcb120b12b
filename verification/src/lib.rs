//! Reading and writing MEIF (Minimally Efficient Image Format) files: an indexed-colour
//! image format with a palette of up to 255 colours and run-length coded pixels.
pub mod converter;
pub mod error;
pub mod image;
pub mod laws;
pub mod parser;
pub mod rle;
pub mod size;
pub mod text;

pub use converter::MEIFConverter;
pub use error::MEIFParserError;
pub use image::{MEIFImage, Rgb};
pub use parser::MEIFParser;
pub use size::format_bytes;
