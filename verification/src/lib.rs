//! A small service manager: reads service files, starts a service after
//! the services it requires, and watches sockets, timers and files for the
//! events that wake services.
//!
//! - [`text`]: byte strings: NUL-terminated paths, splitting.
//! - [`service`]: reading a service file one entry at a time;
//!   [`service_laws`] states what that gives over whole lines, and
//!   [`file_laws`] over whole files.
//! - [`manager`]: running a service after the ones it requires;
//!   [`run_laws`] states a whole run against running it recursively.
//! - [`net`]: Unix socket addresses.
//! - [`poller`]: handing out ready events and file changes.
#![allow(non_camel_case_types)]

pub mod file_laws;
pub mod manager;
pub mod net;
pub mod poller;
pub mod run_laws;
pub mod service;
pub mod service_laws;
pub mod text;
