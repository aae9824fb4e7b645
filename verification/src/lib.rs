//! Disk usage: directory trees as flat arenas, how they are walked, summed up, written and read.
//!
//! A scan walks a directory tree ([`walk`], over [`records`], [`uring`] and [`batch`]) into an
//! arena of nodes ([`arena`]); [`schedule`] states what holds of whole walks. A sweep ([`sweep`])
//! only counts; [`sweeps`] states what holds of whole ones. One pass sums every subtree. The summed
//! tree is written as pruned JSON ([`json`]), as the response of a scan ([`summary`], with
//! [`filetypes`]) or as a QDirStat cache file ([`cache`]); [`builder`] and [`import`] read trees
//! back, and [`readback`], [`roundtrip`] and [`mirror`] state what they give back. Around that
//! stand the local web application ([`web`], [`action`], [`sources`], [`reports`], [`scan_cache`],
//! [`desktop`]) and the command lines ([`cli`]). All input and output is left to the program that
//! uses the library. [`laws`] states what the single operations are for, on what goes into them and
//! what comes out.

pub mod action;
pub mod arena;
pub mod batch;
pub mod builder;
pub mod cache;
pub mod cli;
pub mod desktop;
pub mod escape;
pub mod filetypes;
pub mod hash;
pub mod import;
pub mod json;
pub mod laws;
pub mod mirror;
pub mod rank;
pub mod readback;
pub mod records;
pub mod reports;
pub mod roundtrip;
pub mod scan_cache;
pub mod schedule;
pub mod size;
pub mod sources;
pub mod summary;
pub mod sums;
pub mod sweep;
pub mod sweeps;
pub mod text;
pub mod uring;
pub mod walk;
pub mod web;
