//! A parallel bzip2 block pipeline: the input is cut into blocks, each block
//! is (de)compressed on its own, and the results are written back in their
//! original order however late they come back.

pub mod block;
pub mod reorder;
pub mod stage;
pub mod split;
pub mod assemble;
pub mod names;
