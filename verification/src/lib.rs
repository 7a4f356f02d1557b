//! Read and write engine for a positional, attribute-indexed text corpus:
//! bit-packed streams of Elias codes, the indexes built on them, and the
//! encoder that produces them from vertical text.

pub mod bits;
pub mod util;
pub mod strs;
pub mod conf;
pub mod text;
pub mod mkrev;
pub mod rev;
pub mod structure;
pub mod lex;
pub mod lexwriter;
pub mod lextrip;
pub mod textwriter;
pub mod corp;
pub mod wsketch;
pub mod encodevert;
pub mod encoder;
pub mod wrbits;
pub mod codec;
pub mod roundtrip;
pub mod runtrip;
pub mod revtrip;
