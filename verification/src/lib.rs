//! The logic of corpus-introspect: reading the facet replies of the corpus
//! command-line tools, merging them into one `WholeSelf` record, and laying
//! that record out as text.

pub mod text;
pub mod model;
pub mod json;
pub mod facets;
pub mod merge;
pub mod render;
