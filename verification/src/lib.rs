//! Decision logic of a reduction server: a process that collects equally long vectors of
//! numbers from a set of ranks, sums them element by element and sends the sums back.
//!
//! The crate holds no input or output of its own. Each long-running activity of the server is a
//! state machine: it says which action comes next, and is told what came of it.
//!
//! - `transfer` and `reduce_loop` are the threads of the server. They share only the flags of
//!   `ready`; `protocol` shows that the flags keep them apart, `rounds` that every sum takes in
//!   the contributions of one round, is sent, and is followed by another, `links` what that means
//!   for every rank, and `values` which numbers every rank is sent.
//! - `reduce` sums buffers, in the working memory of `memory` where the numbers are narrow.
//! - `handshake` connects two peers, and `topology` deals the ranks to the threads.
//! - `client` makes requests, and `stat` reports on them in the arithmetic of `double`.
//! - `config`, `address`, `align` and `matrix` hold what the others need on the way.

pub mod address;
pub mod align;
pub mod client;
pub mod config;
pub mod double;
pub mod handshake;
pub mod links;
pub mod matrix;
pub mod memory;
pub mod protocol;
pub mod ready;
pub mod reduce;
pub mod reduce_loop;
pub mod rounds;
pub mod stat;
pub mod topology;
pub mod transfer;
pub mod values;
