//! Protocol engine for a motor-controller device driven over a serial byte
//! stream: CRC-16 checksum accumulation, packet framing with variable-width
//! payload fields, write/read transaction cycles under a bounded retry
//! policy, and reconstruction of a cumulative encoder position from a raw
//! 32-bit delta and a status byte.

mod common;
mod connection;
mod crc16;
mod mock;
mod stream;

pub use common::{
    bit_from_msb, calculate_encoder, encoder_next, get_bits, lemma_encoder_no_flags,
    lemma_encoder_overflow, reconstruct, sign_extended,
};
pub use connection::{
    be16, be16_val, be32, be_val, frame_body, frames, lemma_width_round_trip, payload_bytes,
    read_header, read_ok, read_receives_at, value_bytes, width_of, write_frame, Connection, ConnectionError,
};
pub use crc16::{crc_feed, crc_of, crc_update_spec, lemma_crc_reference_vector, Crc16};
pub use mock::MockStream;
pub use stream::{ByteStream, StreamError};
