//! Stylesheets that assign properties to state entities
//! based on the structure of their surroundings.

pub mod cascade;
pub mod expression;
pub mod selector;
pub mod selector_resolver;
pub mod stylesheet;
pub mod variable_pool;
