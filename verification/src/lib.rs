//! Archipelago: a deterministic, simulated distributed file system with its
//! behaviour stated in contracts and proved.
//!
//! The whole cluster (storage nodes, a metadata service, and a client
//! coordinator) runs in one process over a seeded deterministic network
//! simulator. Files are split into fixed-size content-addressed chunks, placed
//! by rendezvous hashing, replicated for fault tolerance or erasure coded, and
//! written and read with quorum. The simulator can crash nodes and partition
//! the network, and given a seed every run replays identically.
//!
//! Every operation's contract says what it returns and what it does to the
//! cluster as a function of the state before: [`simulation`] and [`protocol`]
//! hold those functions. What follows from them is stated and proved beside:
//!
//! - [`tree`]: the namespace is a tree, and what each operation does to it;
//! - [`soundness`] and [`durability`]: what holds at all times, and that
//!   acknowledged chunks are held and never lost;
//! - [`truth`]: what the client is told is true;
//! - [`replicas`]: the metadata log, and that the namespace survives the loss
//!   of metadata nodes;
//! - [`progress`], [`commits`], [`quorums`] and [`availability`]: on a network
//!   that drops nothing, operations finish in time; [`pacing`]: and no sooner
//!   than messages travel;
//! - [`readback`], [`arrival`], [`spreading`] and [`reconstruction`]: what was
//!   written is read back, also after losses, replicated or erasure coded;
//! - [`absence`], [`repair`] and [`healing`]: what is lost is reported, what is
//!   missing is brought back;
//! - [`upkeep`]: settling roles and re-replicating leave the metadata history as
//!   it is;
//! - [`replay`], [`faultless`] and [`lastwrite`]: whole runs, and that without
//!   faults a file reads as it was last written;
//! - [`weathering`]: and that with faults, within the fault tolerance, what was
//!   committed stays committed;
//! - [`transit`] and [`roles`]: what becomes of every message, and what every node
//!   does with it;
//! - [`dispatch`], [`outcomes`] and [`confinement`]: what the client sends and to
//!   whom, what it makes of the replies, and where chunks do not go;
//! - [`naming`], [`directory`] and [`effects`]: how paths are put together, what
//!   the namespace allows and answers, and what a client sees of it;
//! - [`census`] and [`record`]: what a status, re-replication, the state hash and
//!   the delivery digest say of the cluster;
//! - [`contents`] and [`refusals`]: how files are cut, addressed and weighed, and
//!   which bytes are malformed;
//! - [`session`] and [`phrasing`]: what the commands of a session do and show, and
//!   how lines and numbers are read and written; [`likeness`]: and that contracts
//!   speak of what values hold.

pub mod absence;
pub mod arrival;
pub mod availability;
pub mod census;
pub mod chunk;
pub mod client;
pub mod cluster;
pub mod code;
pub mod commits;
pub mod confinement;
pub mod contents;
pub mod directory;
pub mod dispatch;
pub mod durability;
pub mod effects;
pub mod encode;
pub mod erasure;
pub mod error;
pub mod faultless;
pub mod gf;
pub mod hash;
pub mod healing;
pub mod lastwrite;
pub mod likeness;
pub mod linear;
pub mod message;
pub mod metadata;
pub mod namespace;
pub mod naming;
pub mod net;
pub mod options;
pub mod ordmap;
pub mod outcomes;
pub mod pacing;
pub mod path;
pub mod phrasing;
pub mod placement;
pub mod progress;
pub mod protocol;
pub mod quorums;
pub mod readback;
pub mod reconstruction;
pub mod record;
pub mod refusals;
pub mod repair;
pub mod replay;
pub mod replicas;
pub mod roles;
pub mod session;
pub mod shell;
pub mod simulation;
pub mod soundness;
pub mod spreading;
pub mod storagenode;
pub mod text;
pub mod transit;
pub mod tree;
pub mod truth;
pub mod upkeep;
pub mod varint;
pub mod weathering;
pub mod wire;

pub use crate::chunk::{Chunk, Manifest};
pub use crate::cluster::{Cluster, FileHealth, NodeStatus, Status};
pub use crate::error::Error;
pub use crate::hash::sha256;
pub use crate::message::{DirEntry, NodeId, StatInfo};
pub use crate::options::Options;
