//! Home-directory portability for syncing sessions between machines.
//!
//! Conversations are kept under `projects/<encoded-cwd>/`, where the encoded name is the
//! project's absolute path with `/` replaced by `-`. The absolute path also appears inside the
//! session files themselves. A repository of such files is tied to one machine: a project at
//! `/Users/alice/work` on one machine and at `/root/work` on another would be two unrelated
//! projects.
//!
//! This crate replaces the home prefix by a placeholder on the way into the repository and expands
//! the placeholder to the local home on the way out. Only the home prefix is touched, so everything
//! below it keeps its full structure:
//!
//! - [`home`] finds the local home and brings it into the forms that are looked for;
//! - [`collapsing`] says where the home stands in a text, and where only a longer name does;
//! - [`content`] rewrites the content of session files;
//! - [`project`] rewrites the names of project directories;
//! - [`relative`] rewrites the first component of repository paths;
//! - [`laws`] says what the operations do, of their inputs and results alone;
//! - [`splitting`] is the theory of cutting and joining texts on which the laws of content rest;
//! - [`paths`] states what is taken from the standard library and from `dirs`.
pub mod collapsing;
pub mod content;
pub mod home;
pub mod laws;
pub mod paths;
pub mod project;
pub mod relative;
pub mod splitting;
mod text;
