//! Virtual-branch core: working-tree reconciliation, ownership and
//! conflict tracking, branch lifecycle and the integration tree.
pub mod bytes;
pub mod tree;
pub mod branches;
pub mod integration;
pub mod ownership;
pub mod conflicts;
pub mod open_target;
