//! The answer to the query for all courses.
use vstd::prelude::*;

verus! {

pub const OPERATION_NAME: &'static str = "Courses";

pub const QUERY: &'static str = "query Courses {\n    allCourses {\n        _id\n        name\n    }\n}\n\nquery Modules($course_id: ID!) {\n    course(id: $course_id) {\n        id\n        name\n        modulesConnection {\n            nodes {\n                _id\n                name\n                moduleItems {\n                    _id\n                    url\n                    content {\n                        __typename\n                        ... on File {\n                            _id\n                            displayName\n                            contentType\n                            createdAt\n                            updatedAt\n                        }\n                    }\n                }\n            }\n            pageInfo {\n                hasNextPage\n            }\n        }\n    }\n}\n";

pub type ID = String;

pub struct CoursesAllCourses {
    pub id: ID,
    pub name: String,
}

pub struct Variables;

pub struct ResponseData {
    pub all_courses: Option<Vec<CoursesAllCourses>>,
}

} // verus!
