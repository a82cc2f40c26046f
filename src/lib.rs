/// Text helpers: characters, decimal notation, and the string functions of std.
pub mod text;
/// Selector grammar: parsing index expressions, purifying ranges, splitting selectors.
pub mod index;
/// Insertion-ordered sets of positions.
pub mod ordered_set;
/// Catalog order and the ordering of stored records.
pub mod order;
/// Local repository bookkeeping.
pub mod repo;
/// The remote catalog and the resolution of selectors against it.
pub mod scrape;
/// Choosing and judging the version to apply.
pub mod apply;
/// The commands a user can give.
pub mod command;
