//! The GraphQL queries for courses and their modules, and the shapes of their answers.
pub mod courses;
pub mod modules;

use vstd::prelude::*;

verus! {

/// The query for all courses.
pub struct Courses;

/// The query for the modules of one course.
pub struct Modules;

/// An ISO 8601 time, as the remote side writes it.
pub type DateTime = String;

pub type URL = String;

} // verus!
