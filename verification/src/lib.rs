//! A read-only PDF loader: a bit reader, a DEFLATE/zlib decoder, the PDF
//! object parser and the cross-reference resolution layer.

pub mod error;
pub mod text;
pub mod bit_reader;
pub mod huffman;
pub mod deflate;
pub mod cap;
pub mod gzip;
pub mod lexer;
pub mod number;
pub mod decimal;
pub mod strings;
pub mod header;
pub mod object;
pub mod parse;
pub mod access;
pub mod equality;
pub mod stream;
pub mod xref;
pub mod document;
pub mod framing;
pub mod types;
pub mod font;
pub mod resolver;
pub mod encoding;
