//! What holds of the store as a whole.
pub mod accounts;
pub mod answers;
pub mod asking;
pub mod consistency;
pub mod counting;
pub mod creating;
pub mod deleting;
pub mod driving;
pub mod effects;
pub mod failures;
pub mod formats;
pub mod histories;
pub mod keys;
pub mod merging;
pub mod pieces;
pub mod reading;
pub mod removing;
pub mod rows;
pub mod scans;
pub mod shapes;
pub mod steps;
pub mod tables;
