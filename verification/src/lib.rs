use vstd::prelude::*;

pub mod syntax_kind;
pub mod extend_selection;
pub mod split_import;
pub mod text;
pub mod tree;
pub mod resolve;
pub mod world;

verus! {
} // verus!
