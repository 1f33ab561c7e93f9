//! A DEFLATE-family compressor and decompressor.
//!
//! Bytes are parsed into literals and back-references by a sliding-window
//! matcher ([`lz77`]), and written as dynamic-Huffman blocks ([`encoder`],
//! [`format`]) whose code lengths are bounded by a package-merge construction
//! ([`huffman`]) and whose code words are canonical ([`canonical`],
//! [`coding`]). The code lengths themselves travel run-length encoded
//! ([`code_lengths`]). [`decoder`] reads blocks back, and [`deflate`] holds
//! the two ends: bytes to bit stream and bit stream to bytes.
//!
//! Every executable function has a contract over mathematical models (`Seq`,
//! `int`, spec functions), and [`round_trip`] proves that decompressing what
//! was compressed gives the data back; [`size`] bounds the length of the
//! compressed stream. The modules [`sorting`], [`tables`],
//! [`alphabet`], [`reading`], [`length_reading`], [`payload_reading`] and
//! [`block_round_trip`] hold the lemmas on the way there.

pub mod alphabet;
pub mod bin_num;
pub mod block_round_trip;
pub mod canonical;
pub mod code_lengths;
pub mod coding;
pub mod compared_element;
pub mod decoder;
pub mod deflate;
pub mod encoder;
pub mod error;
pub mod format;
pub mod huffman;
pub mod length_reading;
pub mod lz77;
pub mod payload_reading;
pub mod reading;
pub mod round_trip;
pub mod size;
pub mod sorting;
pub mod symbols;
pub mod tables;
