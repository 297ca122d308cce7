//! Binary trees whose recursive algorithms run on an explicit work stack.
//!
//! Each algorithm exists twice: once as plain recursion, which serves as the
//! baseline, and once as a loop over a control stack of pending work items and
//! a result stack of finished subtrees. Both are proved against the same
//! mathematical description of their result.

pub mod tree;
pub mod invert;
pub mod generate;
pub mod render;
