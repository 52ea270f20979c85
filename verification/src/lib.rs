//! The logic of an SSH and SFTP client, with its contracts proved: connection
//! profiles and their OpenSSH arguments, the resolved SSH configuration and
//! host key decisions, the remote directory tree with its search and rows,
//! bounded file previews, the file browser's state and the worker's
//! decisions, transfers, the connections list and terminal tabs, the bounds
//! of the diagnostics log, and the quoted command line handed to the Ghostty
//! terminal.
pub mod text;
pub mod paths;
pub mod files;
pub mod tree;
pub mod preview;
pub mod profiles;
pub mod connection;
pub mod browser;
pub mod sorting;
pub mod transfer;
pub mod worker;
pub mod diagnostics;
pub mod appearance;
pub mod workspace;
pub mod units;
pub mod ghostty;
