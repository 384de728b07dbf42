//! Value codecs for a columnar database client: a date-time parameter that
//! renders as SQL literal text or as native binary, and the bit-plane
//! quantized vector (QBit) with its Nullable and Array compositions.

pub mod error;
pub mod bytes;
pub mod seqs;
pub mod calendar;
pub mod literal;
pub mod qbit;
pub mod containers;
pub mod param;
pub mod datetime_params;
