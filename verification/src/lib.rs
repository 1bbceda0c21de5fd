//! FIDE Elo rating calculator: the rating rules, the lookup tables they read,
//! and the text the calculator shows, with their contracts.

pub mod decimal;
pub mod csv_source;
pub mod table;
pub mod rating;
pub mod text;
pub mod worker;
pub mod screen;
