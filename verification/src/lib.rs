use vstd::prelude::*;

pub mod config;
pub mod env;
pub mod error;
pub mod ignore;
pub mod path;
pub mod selection;
pub mod symlink;
