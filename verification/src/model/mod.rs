//! Program state graph and visualization models.

pub mod state;
pub mod vis;
