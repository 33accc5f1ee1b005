//! Single-pass aggregation of temperature readings per weather station.
//!
//! Each line of the input holds a station name and a reading, separated by
//! `;`. The library classifies lines, keeps the least, the greatest, the sum
//! and the number of readings per station, and renders a report in order of
//! station names, such as `{Aachen=5.00/5.00/5.00, Berlin=10.00/10.00/10.00}`.
//!
//! Readings are decimal numbers with four fraction digits, held as whole
//! numbers, so that the statistics do not depend on the order in which the
//! readings arrive. Reading a file and printing are left to the caller.
//!
//! - [`arraystring128`]: station names of bounded length
//! - [`lexical`]: the order of names
//! - [`scan`]: finding bytes and trimming white space
//! - [`reading`]: reading and writing decimal numbers
//! - [`record`]: lines and the records that they hold
//! - [`summary`]: what the statistics and the table are, mathematically
//! - [`station_measurements`]: the table and the report

pub mod arraystring128;
pub mod lexical;
pub mod reading;
pub mod record;
pub mod scan;
pub mod station_measurements;
pub mod summary;
