//! An index of links between records: who links to what, and from where.
//!
//! Records of accounts link to targets. The index answers how many links a target has from a
//! collection and a path, and which records they come from, newest first. It is kept in a
//! database of rows of bytes, one table for each of
//!
//! - accounts and their ids (and back),
//! - targets and their ids,
//! - the linkers of each target, in the order in which they came,
//! - the links of each record, so that they can be undone.
//!
//! Nothing here reads or writes the database. An operation works on what it is told of it
//! ([`known`]); where it lacks something it says what is to be read, and is started again. What it
//! decides comes out as batches of changes ([`db`]). An operation that counts on a database in
//! order asks for one; the function beside it whose name begins with `try_` takes whatever
//! database there is, and says what is wrong with it.
//!
//! - [`wire`] and [`records`] say how values are kept as bytes,
//! - [`model`] says what every operation means for the rows of the database,
//! - [`id_table`], [`linkers`], [`counts`] and [`storage`] do it,
//! - [`laws`] shows what follows for the index as a whole.
pub mod bytes;
pub mod counts;
pub mod db;
pub mod error;
pub mod events;
pub mod id_table;
pub mod known;
pub mod laws;
pub mod linkers;
pub mod model;
pub mod records;
pub mod storage;
pub mod wire;
