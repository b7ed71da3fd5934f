//! Decoding of AVM1 bytecode: single actions, and control-flow graphs of whole programs.
pub mod avm1;
pub mod bytes;
pub mod cfg_builder;
pub mod control_flow;
pub mod raw;

pub use avm1::parse_action;
pub use cfg_builder::parse_cfg;
