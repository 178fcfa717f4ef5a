//! Client side of a peer-to-peer Git replication protocol.
//!
//! A local peer, identified by a public key, synchronises a content-addressed
//! repository with a remote peer by driving a staged fetch exchange, validating
//! signed-refs manifests, and committing the resulting reference updates
//! atomically to a reference store.
//!
//! The object database and reference store are modelled in-library as plain
//! data so that the whole engine — the ref-name grammar, the staging refdb,
//! the wants/haves negotiation, the update transaction semantics, the
//! signed-refs validation and the exchange driver — is verified. The
//! surrounding I/O (the on-disk Git stores, the wire transport) is the
//! caller's concern and hands the engine plain values.

pub mod bytemap;
pub mod bytes;
pub mod identity;
pub mod kel;
pub mod keys;
pub mod mem;
pub mod odb;
pub mod oid;
pub mod protocol;
pub mod refdb;
pub mod refname;
pub mod sigrefs;
pub mod stage;
pub mod state;
pub mod tracking;
pub mod transport;
pub mod update;
pub mod validation;
pub mod wire;
