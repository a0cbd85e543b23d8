//! Bit-level serialization: the stream model, the writer and the reader.
pub mod bits;
pub mod codes;
pub mod laws;
pub mod bits_writer;
pub mod bits_reader;
