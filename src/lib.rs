//! Planning of incremental backups: given a snapshot of the current tree and
//! one of the previous backup, decide which directories and files the new
//! backup must receive.
pub mod laws;
pub mod sync;
pub mod tree;
pub mod validity;
