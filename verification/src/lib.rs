//! Fuzzy in-order matching of a query against candidate strings, with
//! scoring, ranking and highlighting of the matched characters.

pub mod text;
pub mod align;
pub mod loose;
pub mod strict;
pub mod score;
pub mod highlight;
pub mod model;
pub mod search;
pub mod report;
pub mod pieces;
