//! Country tables: a list of countries put in order, grouped by the languages
//! spoken in them, summed up, and laid out as bordered text of fixed width.
//!
//! The library computes and never prints: every table is returned as the
//! lines of text that show it. It holds no floating-point number either. An
//! area is kept by the bit pattern of its binary form ([`area`]), and what a
//! table shows of it, of a population in millions and of an average is worked
//! out with integers ([`rounding`], [`decimal`], [`binary`], [`millions`],
//! [`average`], [`shortest`], [`wide`]).
//!
//! - [`country`]: a country as it arrives and as the tables read it;
//! - [`sorter`]: ordering by name, population or area;
//! - [`language_table`]: grouping by language;
//! - [`printer`]: the country table, the summary and the language table,
//!   with [`summary`], [`language_lines`] and [`text`] beneath it.

pub mod area;
pub mod average;
pub mod binary;
pub mod country;
pub mod decimal;
pub mod language_lines;
pub mod language_table;
pub mod millions;
pub mod printer;
pub mod rounding;
pub mod shortest;
pub mod sorter;
pub mod summary;
pub mod text;
pub mod wide;

pub use area::Area;
pub use country::{Country, CountryDTO, Language};
pub use language_table::LanguageTable;
pub use printer::{FormatInfo, Printer};
pub use sorter::{sort_countries_by, SortBy, SortOptions};
