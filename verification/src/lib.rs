//! Small puzzle solvers: a dial-rotation simulation, a repeated-block ID
//! validity classifier with range aggregation, and a digit-selection
//! maximizer, together with the text grammars that feed them.

pub mod batteries;
pub mod dial;
pub mod dial_basic;
pub mod digits;
pub mod error;
pub mod ids;
