//! A catalog of files identified by the digest of their content.
//!
//! A collection of resources, files or directories, lives in one directory.
//! Each resource is identified by the digest of its content; the catalog
//! holds one record for each and follows it through changes of its content.
//! A run of cataloguing scans the directory (`scanner`), answers from the
//! verification cache (`cache`) where a resource was not touched since its
//! digest was computed (`digest`), and reconciles the catalog with what it
//! found (`catalog`). Nothing here touches the file system: a run takes what
//! was seen and hands back what is to be deleted, renamed and written.
//!
//! `proofs` states what holds of every run. `bibtex` and `search` serve the
//! finished catalog.

pub mod bibtex;
pub mod cache;
pub mod catalog;
pub mod digest;
pub mod json;
pub mod proofs;
pub mod ranking;
pub mod resource;
pub mod scanner;
pub mod search;
pub mod sorted;
pub mod table;
pub mod text;
