//! Variable-length integer codec for a binary wire protocol.
//!
//! `VarInt` carries a signed 32-bit value and `VarLong` a signed 64-bit
//! value; both serialize to a sequence of 7-bit groups, least-significant
//! group first, with bit 7 of every byte but the last set as a
//! continuation flag. Decoding rejects truncated input (`Incomplete`) and
//! input with too many continuation bytes (`TooLarge`).

pub mod varint;
