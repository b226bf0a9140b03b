//! Modules of a course and their items, as the REST endpoint lists them.
use vstd::prelude::*;

use crate::tree::Id;

verus! {

pub struct Module {
    pub id: Id,
    pub name: String,
    pub items: Vec<ModuleItem>,
}

pub struct ModuleItem {
    pub id: Id,
    pub url: String,
}

pub struct File {
    pub id: Id,
}

} // verus!
