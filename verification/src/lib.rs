//! Verified core of Sulafat: fidelity-preserving `~/.ssh/config` parsing and rewriting, the
//! `ssh` command builder, UI metadata bookkeeping and the locale helpers of the frontend.

pub mod text;
pub mod num;

pub mod command;
pub mod ssh_config;
pub mod metadata;
pub mod i18n;
pub mod ui;
