//! Data availability sampling over a Kademlia keyspace.

pub mod accounting;
pub mod allocation;
pub mod args;
pub mod closer;
pub mod collections;
pub mod dissemination;
pub mod events;
pub mod frame;
pub mod grouping;
pub mod hex_text;
pub mod ids;
pub mod iterative;
pub mod keys;
pub mod messages;
pub mod node;
pub mod outstanding;
pub mod recursive;
pub mod report;
pub mod sampling;
pub mod secure_overlay;
pub mod seeds;
pub mod simulation;
pub mod snapshot;
pub mod startup;
pub mod topology;
pub mod trace;
