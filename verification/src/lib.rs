//! Core logic of a daemon that tracks the anonymous pages of registered
//! processes and asks the kernel to merge the ones that hold the same bytes.
//!
//! Nothing in this crate touches the operating system.  Every function is a
//! computation on plain values: the caller performs the reads and writes on
//! the kernel's pseudo-files and hands the library what came back.

pub mod agent;
pub mod error;
pub mod gateway;
pub mod index_lemmas;
pub mod page;
pub mod pass_lemmas;
pub mod proc;
pub mod protocols;
pub mod refresh_lemmas;
pub mod system;
pub mod task;
pub mod task_lemmas;
pub mod text;
pub mod tracker_lemmas;
pub mod uksm;
