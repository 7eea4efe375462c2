use vstd::prelude::*;

pub mod scope;
