//! The job engine of a service manager: units wired together by dependency
//! relations are brought up and down through jobs, which a transaction expands from one
//! request, commits against the work already queued, and a run loop then triggers.
use vstd::prelude::*;

pub mod fstab;
pub mod job_alloc;
pub mod job_entry;
pub mod job_laws;
pub mod job_manager;
pub mod job_notify;
pub mod job_stat;
pub mod job_table;
pub mod job_transaction;
pub mod process_util;
pub mod seq_util;
pub mod socket_config;
pub mod socket_port;
pub mod unit;
