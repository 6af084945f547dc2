//! A static linker/patcher for ELF executables.
//!
//! The crate parses ELF images from bytes, matches exported function symbols
//! between an executable and its libraries, copies the machine code of the
//! matches into the executable as new sections backed by a fresh loadable
//! segment, and serializes the result back to bytes.

pub mod codegen;
pub mod elf;
pub mod ext;
pub mod laws;
pub mod layout;
pub mod link;
pub mod omap;
pub mod parse;
pub mod write;
