//! WSLForward's logic: reading the output of `netsh`, `ss`/`netstat`, `docker`
//! and the firewall listing, deciding which commands to run and in what
//! order, and putting together what the window shows.

pub mod command;
pub mod data;
pub mod docker;
pub mod firewall;
pub mod netsh;
pub mod text;
pub mod types;
pub mod unicode;
pub mod watch;
pub mod wsl;
