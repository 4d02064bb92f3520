//! Kernel module tree maintenance: dependency resolution over `modules.dep`,
//! a reference-counted registry of wanted modules, and the decisions that
//! clean a module tree of what nothing references.

pub mod text;
pub mod graph;
pub mod kernel;
pub mod order;
pub mod tree;
pub mod error;
pub mod registry;
pub mod storage;
pub mod commit;
pub mod dpkg;
pub mod actions;
pub mod modinfo;
pub mod sysutils;
pub mod vacuum;
