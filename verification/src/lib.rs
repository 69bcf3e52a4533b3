//! An installer for command line tools, and the shell script that loads them.
//!
//! A configuration lists tools by where they come from: releases,
//! repositories, crates, node and system packages, install scripts and shell
//! plugins. This library decides what is installed and updated, where it goes,
//! what is recorded of it, what the shell script says, and what is reported.
//! Files, processes and the network are outside: what they say comes in as
//! plain values, and what has to be done goes out as steps.

pub mod cli;
pub mod config;
pub mod config_file;
pub mod doctor;
pub mod evalcache;
pub mod failure;
pub mod initzsh;
pub mod lock;
pub mod lock_file;
pub mod path;
pub mod paths;
pub mod pool;
pub mod remove;
pub mod self_update;
pub mod sources;
pub mod stamp;
pub mod strings;
pub mod table;
pub mod text;
pub mod tree;
pub mod update;
pub mod version;
