//! Converts a block documentation comment (`/** ... */`, asterisk column,
//! `@param` / `@return` tags, `Sk`-prefixed symbol names) into line
//! documentation comments (`/// `, Markdown items, renamed references).
pub mod casing;
pub mod converter;
pub mod pipeline;
pub mod rewrite;
pub mod text;
pub mod token;
