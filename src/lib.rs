//! Borrow checking for C code annotated with lifetime regions: a control-flow
//! graph builder and a fixed-point engine over region and loan relations.
pub mod borrowck;
pub mod cfg;
pub mod cli;
pub mod diagnostics;
