//! Decoding of the line codes of ISO/IEC 14443-3 Type A proximity cards: timing
//! intervals are classified into Miller (reader to card) or Manchester (card to
//! reader) symbols, the symbols are collected into bits, and the bits are read as
//! a frame, with per-byte parity and CRC-16 checked.
pub mod bits;
pub mod dialog_interpreter;
pub mod error;
pub mod frame;
pub mod manchester;
pub mod miller;
pub mod miller_reworked;
pub mod time_record_both_ways;
pub mod timing;
