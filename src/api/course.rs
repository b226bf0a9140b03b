//! Courses as the REST endpoint lists them.
use vstd::prelude::*;

use crate::api::core_api::decimal;
use crate::tree::Id;

verus! {

/// A course as listed; courses without a name are left out.
pub struct MaybeCourse {
    pub id: Id,
    pub name: Option<String>,
}

pub struct Course {
    pub id: Id,
    pub name: String,
}

impl MaybeCourse {
    /// The course, where it has a name.
    pub fn into_course(self) -> (r: Option<Course>)
        ensures
            self.name is None ==> r is None,
            self.name matches Some(n) ==> r matches Some(c) && c.id == self.id && c.name == n,
    {
        match self.name {
            Some(name) => Some(Course { id: self.id, name }),
            None => None,
        }
    }
}

impl Course {
    /// `courses/<id>/modules`.
    pub fn modules_endpoint(&self) -> (r: String)
        ensures
            r@ == "courses/"@ + decimal(self.id as nat) + "/modules"@,
    {
        let mut s = String::from_str("courses/");
        crate::api::core_api::append_decimal(&mut s, self.id);
        s.append("/modules");
        s
    }
}

} // verus!
