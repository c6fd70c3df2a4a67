//! A single-instrument limit order book with price-time and pro-rata matching.
//!
//! Orders arrive at an [`book::OrderBook`] and rest there in price-time
//! priority. A [`matching::Matcher`] pairs the latest arrival with the resting
//! orders it crosses and reports the trades as fills. What a book is and what
//! a matching pass does to it is defined on mathematical values in
//! [`book_view`] and [`matching`]; the executable code is proved against
//! those definitions. [`laws`] states what follows from them for every pass,
//! [`arrival`] what follows when an order arrives at a book that is not
//! crossed, and [`fifo`] what a pass under price-time priority does then.

pub mod allocation;
pub mod arrival;
pub mod book;
pub mod book_view;
pub mod counting;
pub mod fifo;
pub mod ingest;
pub mod laws;
pub mod matcher;
pub mod matching;
pub mod order;
pub mod service;
pub mod snapshot;
