//! The logic of a program that keeps folders in sync between peers, without a server.
//!
//! A folder is scanned into a tree of hashes ([`scan`], [`chunk`], [`merkle`]) and recorded, with a
//! vector clock per file, in an index ([`index`], [`conflict`]). Peers compare trees and fetch the
//! chunks they lack ([`reconcile`], [`transfer`]); changes are told as they happen ([`watcher`],
//! [`local`], [`inbound`]). The rest decides what the network is asked to do ([`swarm`], [`network`]),
//! reads settings and commands ([`config`], [`cli`]), and says what is shown ([`progress`], [`tui`],
//! [`render`]).
//!
//! Functions decide and compute; reading files, talking to peers and drawing are the caller's. What
//! holds of several functions together stands in the `*_laws` modules, or beside the functions.

pub mod chunk;
pub mod cli;
pub mod clock_laws;
pub mod config;
pub mod conflict;
pub mod diff_laws;
pub mod event_laws;
pub mod exchange_laws;
pub mod display_laws;
pub mod folder_laws;
pub mod hash;
pub mod hash_laws;
pub mod inbound;
pub mod inbound_laws;
pub mod index;
pub mod index_laws;
pub mod key_laws;
pub mod known_laws;
pub mod local;
pub mod merkle;
pub mod names;
pub mod network;
pub mod network_laws;
pub mod path;
pub mod path_laws;
pub mod peer_id_map;
pub mod peers;
pub mod progress;
pub mod protocol;
pub mod reconcile;
pub mod reconcile_laws;
pub mod render;
pub mod replay_laws;
pub mod scan;
pub mod settings_laws;
pub mod swarm;
pub mod sync_engine;
pub mod text;
pub mod text_laws;
pub mod transfer;
pub mod transfer_laws;
pub mod tree_laws;
pub mod tui;
pub mod util;
pub mod view_laws;
pub mod watcher;
