//! Queries over log lines.
pub mod accumulate;
pub mod data;
pub mod extract;
pub mod float;
pub mod grouper;
pub mod json;
pub mod lang;
pub mod meaning;
pub mod numeral;
pub mod operator;
pub mod order;
pub mod pipeline;
pub mod render;
pub mod stage;
pub mod table;
pub mod text;
