//! An executor for a zkVM.
//!
//! A guest program is executed to find out how its proof is to be divided into
//! segments, and what goes into each of them. [`executor::ExecutorImpl`] is the
//! executor. What it does is stated over [`state::ExecView`], its model, one
//! operation after the other, and over the relations in [`session`] for a whole
//! run. What follows for its users is in [`laws`] for a step, in [`session_laws`] for
//! a run, in [`replay_laws`] for system calls that are cut off, and in [`guest_laws`]
//! and [`sha_laws`] for guest memory.
//!
//! What is to be expected of the executor is also told in [`plain`] terms, by the bytes,
//! pages, registers and cycles of the guest: of each instruction in
//! [`instruction_laws`], of each ecall in [`ecall_laws`] and [`syscall_laws`], of each
//! access to the guest in [`monitor_laws`], of what a run records in [`run_laws`], of
//! the numbers behind all that in [`number_laws`], and of the models in [`view_laws`].
//!
//! What the executor does not do itself (decoding instructions, answering system
//! calls, keeping segments) it asks its host for, by functions that it is given.
pub mod access;
pub mod bigint;
pub mod ecall;
pub mod ecall_laws;
pub mod executor;
pub mod guest;
pub mod guest_laws;
pub mod hart;
pub mod host;
pub mod instruction_laws;
pub mod laws;
pub mod monitor;
pub mod monitor_laws;
pub mod number_laws;
pub mod plain;
pub mod platform;
pub mod replay_laws;
pub mod run_laws;
pub mod segment;
pub mod session;
pub mod session_laws;
pub mod sha;
pub mod sha_laws;
pub mod state;
pub mod syscall_laws;
pub mod turns;
pub mod types;
pub mod view_laws;
pub mod words;
