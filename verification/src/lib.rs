//! Watching for Ceph requests that take long.
//!
//! The Ceph kernel client lists the requests that it waits for in two files of the debug
//! filesystem, `osdc` and `mdsc`. This library reads those lists ([`osdc`], [`mdsc`]), keeps track
//! of how long each request has been waiting ([`update`], [`tracking`]) and lists the requests for
//! people ([`report`], [`render`]). What is read, and at what time, is handed to it.

pub mod errors;
pub mod mdsc;
pub mod numbers;
pub mod options;
pub mod osdc;
pub mod patterns;
pub mod reading;
pub mod render;
pub mod report;
pub mod text;
pub mod tracking;
pub mod update;
