//! Selection and aggregation of attribution snippets: turning a directory
//! listing into a sorted catalog, tracking which entries are ticked, and
//! rendering the ticked entries into one block of text.
pub mod catalog;
pub mod engine;
pub mod text;
