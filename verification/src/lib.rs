//! Durable protocol journal and lease-based state runtime of an NFSv4.0 server.

pub mod bytemap;
pub mod bytes;
pub mod canonical;
pub mod check;
pub mod clients;
pub mod codec;
pub mod commit;
pub mod entropy;
pub mod error;
pub mod files;
pub mod identity;
pub mod idlist;
pub mod journal;
pub mod keyset;
pub mod layout;
pub mod lease;
pub mod limits;
pub mod locks;
pub mod merge;
pub mod numbermap;
pub mod owner;
pub mod protocol;
pub mod record;
pub mod recovery;
pub mod registry;
pub mod roundtrip;
pub mod runtime;
pub mod share;
pub mod snapshot;
pub mod stateid;
pub mod transfer;
pub mod wire;
