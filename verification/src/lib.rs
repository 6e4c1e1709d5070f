//! Reads sales records from comma-separated text, transforms them (filter by
//! region, uppercase names, select amounts, sort by amount) and writes them
//! back as text. Functions state their results in `ensures` clauses; the one
//! call whose result is named rather than computed here is `str::to_uppercase`.

pub mod cli;
pub mod error;
pub mod parser;
pub mod text;
pub mod transform;
pub mod values;
pub mod writer;

pub use error::AppError;
pub use parser::Sale;
