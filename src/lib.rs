//! Resolution of IP addresses to the countries they are assigned to, through a
//! sorted map of address blocks.

/// Address blocks and the sorted map from blocks to values.
pub mod ip;
/// Facts about sequences of map operations.
pub mod ip_lemmas;
/// Countries and their short codes.
pub mod country;
/// Countries that may be unresolved, and filters over countries.
pub mod filter;
/// Grouping of blocks by country.
pub mod tally;
/// Building maps from records of blocks and codes.
pub mod ingest;
/// IPv4 addresses in dotted-decimal form.
pub mod addr;
/// Unsigned decimal numbers as text.
pub mod decimal;
/// Country records returned by a knowledge-base query.
pub mod wiki;
