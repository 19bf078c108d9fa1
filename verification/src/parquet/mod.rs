pub mod channels;
pub mod stream_laws;
pub mod sort;
pub mod writer;
