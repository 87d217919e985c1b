//! The judged documents of a query, and how a returned ranking is held against them.

pub mod entries;
pub mod gain;
pub mod index;
pub mod judgment;
pub mod label;
pub mod ranking;
pub mod score;
pub mod search_result;
pub mod text;
