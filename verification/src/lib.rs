//! Checked arithmetic, a small expression evaluator, and the decision logic of a
//! concert ticket platform (order service and batch sales analytics).

pub mod text;
pub mod calc;
pub mod tickets;
pub mod analytics;
pub mod cli;
