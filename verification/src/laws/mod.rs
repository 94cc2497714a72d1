//! What the operations are for, in plain terms.
//!
//! The laws here speak of bits, bytes, addresses and characters, with the numbers
//! of the formats written out, so that each can be held against a data sheet.

pub mod abi;
pub mod block;
pub mod fuse;
pub mod image;
pub mod manifest;
pub mod messages;
pub mod number;
pub mod order;
pub mod patch;
pub mod placement;
pub mod rom;
pub mod scan;
pub mod text;
pub mod views;
