//! Transport plumbing between a low-power radio and a host: the serial
//! frame codec, the stream reassembly buffer that drains it, the bounded
//! single-producer/single-consumer packet queue, and the IEEE 802.15.4 MAC
//! frame decoder.
pub mod codec;
pub mod stream;
pub mod queue;
pub mod mac;
