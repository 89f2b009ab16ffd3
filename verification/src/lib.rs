//! LZ4 block decompression, verified.
//!
//! [`block::format`] says which bytes a block stands for. The decoders of
//! [`block`] are proved to write exactly those bytes, whether the block and the
//! output come in one piece or in many; [`block::laws`] says what follows from
//! that.

pub mod block;
