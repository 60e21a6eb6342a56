//! Fraud scoring of card transactions by nearest-neighbour search.
//!
//! A transaction is turned into a vector of bytes, and the labels of the five
//! closest reference vectors decide its fraud score. This crate holds the logic
//! of the service: the calendar and timestamp rules, the dimensions of a transaction,
//! the binary image of the reference vectors, the search over it,
//! and the framing of HTTP requests and responses.

pub mod archive;
pub mod calendar;
pub mod dataset;
pub mod decimal;
pub mod http;
pub mod neighbours;
pub mod parallel;
pub mod response;
pub mod search;
pub mod service;
pub mod timestamp;
pub mod vectorize;
