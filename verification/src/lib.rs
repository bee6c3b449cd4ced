//! Core logic of MTPDrive: localisation, formatting, directory caches, NFS
//! handle bookkeeping, log storage and the decisions the daemon makes.
pub mod text;
pub mod i18n;
pub mod model;
pub mod settings;
pub mod format;
pub mod cache;
pub mod error;
pub mod nfs;
pub mod listing;
pub mod logs;
pub mod device;
pub mod refresh;
pub mod output;
pub mod mount;
pub mod paths;
pub mod ipc;
pub mod debug;
pub mod staging;
pub mod ui;
pub mod gui;
pub mod release;
pub mod daemon;
