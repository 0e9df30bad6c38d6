//! Schulze STV: the election of a committee by ranked ballots.
//!
//! The ballots are read by [`ballot_parser`] and tallied by [`schulze_stv`]:
//! every committee gets a strength against every candidate outside it
//! ([`proportional_completion`], [`vote_management`]), and the defeats among
//! the committees that follow from the strengths are resolved by the Schulze
//! method ([`schulze`], [`schwartz_set`]).  The committees are numbered by
//! [`combination`], the weights are counted in a domain that [`traits`]
//! describes, of which [`rational`] is the exact one, and [`util`] holds the
//! grouping and merging of sorted lists.

pub mod ballot_parser;
pub mod combination;
pub mod proportional_completion;
pub mod rational;
pub mod schulze;
pub mod schulze_stv;
pub mod schwartz_set;
pub mod traits;
pub mod util;
pub mod vote_management;
