//! Verified core of a command-line downloader for an anime streaming service.
#![allow(non_camel_case_types)]
use vstd::prelude::*;

pub mod text;
pub mod locale;
pub mod parse;
pub mod clap;
pub mod ffmpeg;
pub mod download;
pub mod segments;
pub mod session;
pub mod config;
pub mod os;
pub mod filter;
pub mod fmt;
pub mod command;
pub mod subtitle;
pub mod sync;
pub mod sort;
pub mod search;
pub mod format;
pub mod video;
pub mod visit;

verus! {
} // verus!
