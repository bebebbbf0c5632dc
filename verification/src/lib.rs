//! Verified core of the high-quality ("Zopfli") backward-reference search of a
//! Brotli encoder: node bookkeeping for the shortest-path search, command
//! construction, length and distance prefix codes, packed backward matches,
//! match enumeration over a ring buffer, and literal and command histograms.

pub mod util;
pub mod node;
pub mod command;
pub mod backward_match;
pub mod matcher;
pub mod queue;
pub mod update;
pub mod histogram;
pub mod zopfli;
