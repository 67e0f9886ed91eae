//! Core of the ground-model file format: canonical JSON and content
//! addressing, commit manifests, the sync wire format, three-way merge and
//! the history rules, and the text the command line and the web UI print.

use vstd::prelude::*;

pub mod canon;
pub mod commit;
pub mod docmap;
pub mod error;
pub mod exchange;
pub mod model;
pub mod net;
pub mod pages;
pub mod render;
pub mod sorting;
pub mod store;
pub mod sync;
pub mod text;
pub mod validate;
pub mod vocabulary;
pub mod web;
pub mod wire;
pub mod workspace;
