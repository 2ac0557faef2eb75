//! Machine-neutral decompiler core.

pub mod cfg;
pub mod ir;
pub(crate) mod sets;
pub mod structure;
pub(crate) mod text;
pub mod types;
pub mod typeutil;
pub mod var;
