//! Core of a peer-to-peer overlay node: identifier ring algebra, Chord
//! routing state, relay envelopes and their state machine, and a
//! Kademlia-style k-bucket table.
pub mod did;
pub mod error;
pub mod chord;
pub mod message;
pub mod relay;
pub mod handler;
pub mod kademlia;
pub mod route;
pub mod storage;
pub mod hashring;
pub mod response;
