//! Caliptra MCU ROM patch packer.
//!
//! Produces a signed binary patch block from a pre-built, relocation-free
//! replacement ELF, for the PMP trap-and-patch model.
//!
//! Pipeline: [`elf::load_replacement`] → [`csr_scan::scan_executable`] and
//! [`abi::AbiPolicy`] → validation → [`block::pack_and_sign`]; all of it behind
//! [`build_patch_block`]. Sets of patches are the business of [`manifest`], and
//! their OTP items that of [`fuse_cfg`].
//!
//! Each public function states what it returns, and when. Laws that relate
//! several functions are public proof functions whose names start with `law_`,
//! next to what they speak of; [`laws`] holds those that say in plain terms what
//! the operations are for.

pub mod abi;
pub mod block;
pub mod csr_scan;
pub mod elf;
pub mod fuse_cfg;
pub mod laws;
pub mod manifest;
pub mod order;
pub mod patch;
pub mod permutation;
pub mod signer;
pub mod text;

pub use patch::{build_patch_block, PatchRequest, RomBounds};
