//! A build tool that loads Ninja build files and runs the out-of-date steps.
pub mod canon;
pub mod concurrent_linked_list;
pub mod db;
pub mod densemap;
pub mod depfile;
pub mod eval;
pub mod fs;
pub mod graph;
pub mod hash;
pub mod intern;
pub mod load;
pub mod parse;
pub mod progress;
pub mod progress_dumb;
pub mod progress_fancy;
pub mod run;
pub mod scanner;
pub mod smallmap;
pub mod task;
pub mod terminal;
pub mod text;
pub mod trace;
pub mod work;
