//! A block-oriented LZ77-family byte-stream codec.
//!
//! `whack::whackblock` compresses a single buffer into a self-contained
//! compressed block, or refuses when the compressed form would not fit
//! within the input's size. `unwhack::unwhack` reconstructs the original
//! bytes from such a block given the exact original length.
//!
//! Both directions carry complete functional specifications: the encoder
//! returns exactly `whack::spec_whack` of its input and dictionary (for a
//! whole block, `whack::spec_whackblock`, a pure function of the bytes
//! alone), and the decoder returns exactly `unwhack::spec_unwhack` of its
//! input, including which of the four errors a malformed block produces.

pub mod bitbuf;
pub mod constants;
pub mod unwhack;
pub mod whack;
