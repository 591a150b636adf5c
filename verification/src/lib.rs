//! Core of a continuous-integration master: a registry of worker ("slave")
//! processes keyed by their transport routing identity, a capability-matching
//! scheduler that picks the best idle worker for a build command, and the
//! protocol state machine that drives the Idle/Command handshake.
//!
//! Message transport and cryptography are external collaborators: the
//! surrounding program verifies and decrypts each incoming message and hands
//! this library the outcome as a plain value; the library decides what state
//! changes and what outgoing response (if any) follow, and defines the byte
//! frames the secure channel signs, encrypts and carries.

pub mod cap;
pub mod master;
pub mod message;
pub mod registry;
pub mod scheduler;
pub mod wire;
