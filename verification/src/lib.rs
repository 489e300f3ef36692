//! Whole-program linking and static layout for the compiler back end, and
//! the errors of elaboration.
//!
//! A linking run ([`linker::Collector`]) starts from an entry point and
//! collects every procedure that is reachable from it, in depth-first
//! order of discovery. Each procedure and each global receives a dense
//! numeric identity. Every named constant that a collected body mentions is
//! resolved ([`linker::Collector::collect_const`]): a small constant
//! becomes an immediate, a list, structure or array is laid out in the
//! read-only data arena ([`linker::ConstData`]) and becomes a pointer.
//!
//! What these operations compute is defined in [`model`] as mathematical
//! functions of the program and of the state before; the executable code
//! is proved to compute exactly that. [`encoding`] defines the bytes that a
//! constant expression stands for and proves that evaluation writes them;
//! [`progress`] and [`closure`] prove what every collection keeps and
//! achieves; [`laws`] states the properties that users rely on.
//!
//! [`elab`] holds the errors of elaboration, the diagnostics that report
//! them, and the elaboration of a parsed file ([`ast`]) into an
//! [`environment::Environment`] with the help of a file server.

pub mod ast;
pub mod bytes;
pub mod closure;
pub mod elab;
pub mod encoding;
pub mod environment;
pub mod laws;
pub mod lined_string;
pub mod linker;
pub mod model;
pub mod progress;
pub mod types;
