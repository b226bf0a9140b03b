//! The answer to the query for the modules of one course.
use vstd::prelude::*;

use super::{DateTime, URL};

verus! {

pub const OPERATION_NAME: &'static str = "Modules";

pub const QUERY: &'static str = "query Courses {\n    allCourses {\n        _id\n        name\n    }\n}\n\nquery Modules($course_id: ID!) {\n    course(id: $course_id) {\n        id\n        name\n        modulesConnection {\n            nodes {\n                _id\n                name\n                moduleItems {\n                    _id\n                    url\n                    content {\n                        __typename\n                        ... on File {\n                            _id\n                            displayName\n                            contentType\n                            createdAt\n                            updatedAt\n                        }\n                    }\n                }\n            }\n            pageInfo {\n                hasNextPage\n            }\n        }\n    }\n}\n";

pub type ID = String;

pub struct ModulesCourseModulesConnectionNodesModuleItemsContentOnFile {
    pub id: ID,
    pub display_name: Option<String>,
    pub content_type: Option<String>,
    pub created_at: Option<DateTime>,
    pub updated_at: Option<DateTime>,
}

pub enum ModulesCourseModulesConnectionNodesModuleItemsContentOn {
    File(ModulesCourseModulesConnectionNodesModuleItemsContentOnFile),
    Assignment,
    ExternalTool,
    ModuleExternalTool,
    Page,
    SubHeader,
    Quiz,
    Discussion,
    ExternalUrl,
}

pub struct ModulesCourseModulesConnectionNodesModuleItemsContent {
    pub on: ModulesCourseModulesConnectionNodesModuleItemsContentOn,
}

pub struct ModulesCourseModulesConnectionNodesModuleItems {
    pub id: ID,
    pub url: Option<URL>,
    pub content: Option<ModulesCourseModulesConnectionNodesModuleItemsContent>,
}

pub struct ModulesCourseModulesConnectionNodes {
    pub id: ID,
    pub name: Option<String>,
    pub module_items: Option<Vec<ModulesCourseModulesConnectionNodesModuleItems>>,
}

/// Information about pagination in a connection.
pub struct ModulesCourseModulesConnectionPageInfo {
    pub has_next_page: bool,
}

/// The connection type for Module.
pub struct ModulesCourseModulesConnection {
    pub nodes: Option<Vec<Option<ModulesCourseModulesConnectionNodes>>>,
    pub page_info: ModulesCourseModulesConnectionPageInfo,
}

pub struct ModulesCourse {
    pub id: ID,
    pub name: String,
    pub modules_connection: Option<ModulesCourseModulesConnection>,
}

pub struct Variables {
    pub course_id: ID,
}

pub struct ResponseData {
    pub course: Option<ModulesCourse>,
}

} // verus!
