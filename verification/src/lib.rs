use vstd::prelude::*;

pub mod canonical;
pub mod cas;
pub mod cli;
pub mod cycles;
pub mod db;
pub mod depgraph;
pub mod error;
pub mod humantime;
pub mod journal;
pub mod model;
pub mod order;
pub mod outside;
pub mod paths;
pub mod plan;
pub mod rollback;
pub mod scan;
pub mod table;
pub mod text;
pub mod timeline;
pub mod ui;
pub mod watch;
pub mod words;
pub mod workspace;

verus! {

}
