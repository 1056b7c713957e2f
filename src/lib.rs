//! Linked containers with three node-ownership disciplines: an exclusively
//! owned stack, a persistent list with shared tails, and a doubly linked
//! deque whose nodes live in an arena addressed by index.

pub mod first;
pub mod fourth;
pub mod second;
pub mod third;
