//! Shares folders between the devices of an account: the logic, apart from files, sockets and the
//! command line.

pub mod account_laws;
pub mod accounts;
pub mod auth;
pub mod bytes;
pub mod cli;
pub mod clock;
pub mod codec;
pub mod commands;
pub mod config;
pub mod content_laws;
pub mod daemon;
pub mod decimal;
pub mod diff_laws;
pub mod doc_laws;
pub mod docfile;
pub mod edit_laws;
pub mod entries;
pub mod error;
pub mod export_laws;
pub mod folder_laws;
pub mod hash;
pub mod history;
pub mod home;
pub mod ignore;
pub mod import;
pub mod import_laws;
pub mod lcs;
pub mod manifest;
pub mod order;
pub mod ordmap;
pub mod paths;
pub mod protocol;
pub mod reading;
pub mod reimport_laws;
pub mod rule_laws;
pub mod scan;
pub mod shares;
pub mod snapshot;
pub mod store_laws;
pub mod sync_laws;
pub mod table;
pub mod talk_laws;
pub mod text;
pub mod textdoc;
pub mod tree;
pub mod visible;
