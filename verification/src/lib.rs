//! Two-way file synchronisation between two machines.
//!
//! - The engine: `path`, `clock`, `index`, `event`, `engine`, `pressure`; laws of it
//!   in `convergence`, `canonical`, `replicas`, `pairs`, `echoes`, `preserved`, `tree`,
//!   `exchange`, `winners`, `captures`, `pacing` and `paths`.
//! - What peers say to each other: `wire`, `wireerror`, `codec`, `message`,
//!   `frame`; laws in `reception`.
//! - What is kept of the past: `digest`, `chunking`, `history`, `reading`,
//!   `recording`, `queries`, `integrity`, `migration`, `store`; laws in `ledger`,
//!   `keeping`, `soundness` and `browsing`.
//! - Settings and rules: `config`; laws in `rules`.
//! - The way to a peer: `hostspec`, `sshlines`, `sshhost`, `sshconfig`, `routes`,
//!   `sshfiles`, `hostkeys`, `keyalgos`, `session`; laws in `targets`,
//!   `directives`, `loading`, `ways` and `trust`.
//! - The peer's binary: `triple`, `binsource`, `bootstrap`, `push`, `remote`;
//!   laws in `peers`.
//! - Text and bytes under these: `order`, `text`, `words`, `bytes`, `pathmap`,
//!   `quote`, `filepath`, `remotepath`, `wildcard`, `transport` (errors); laws in
//!   `basics`.

use vstd::prelude::*;

pub mod basics;
pub mod binsource;
pub mod bootstrap;
pub mod browsing;
pub mod bytes;
pub mod canonical;
pub mod captures;
pub mod chunking;
pub mod clock;
pub mod codec;
pub mod config;
pub mod convergence;
pub mod digest;
pub mod directives;
pub mod echoes;
pub mod engine;
pub mod event;
pub mod exchange;
pub mod filepath;
pub mod frame;
pub mod history;
pub mod hostkeys;
pub mod hostspec;
pub mod index;
pub mod integrity;
pub mod keeping;
pub mod keyalgos;
pub mod ledger;
pub mod loading;
pub mod message;
pub mod migration;
pub mod order;
pub mod pacing;
pub mod pairs;
pub mod path;
pub mod pathmap;
pub mod paths;
pub mod peers;
pub mod preserved;
pub mod pressure;
pub mod push;
pub mod queries;
pub mod quote;
pub mod reading;
pub mod reception;
pub mod recording;
pub mod remote;
pub mod remotepath;
pub mod replicas;
pub mod routes;
pub mod rules;
pub mod session;
pub mod soundness;
pub mod sshconfig;
pub mod sshfiles;
pub mod sshhost;
pub mod sshlines;
pub mod store;
pub mod targets;
pub mod text;
pub mod transport;
pub mod tree;
pub mod triple;
pub mod trust;
pub mod ways;
pub mod wildcard;
pub mod winners;
pub mod wire;
pub mod wireerror;
pub mod words;

verus! {

} // verus!
