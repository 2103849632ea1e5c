//! An index of the links found in social-network records: it turns raw upstream events
//! into index operations, and keeps, under record and account creation, update and
//! deletion, counts of how many records of a collection point at a target from a path.

pub mod consumer;
pub mod json;
pub mod links;
pub mod lookup;
pub mod model;
pub mod storage;
pub mod tally;
