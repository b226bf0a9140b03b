use canvas_file_sync::api::core_api::CoreApi;
use canvas_file_sync::canvas::{Canvas, CanvasBase, Course, Module, User};
use canvas_file_sync::time::{FileTime, Stamp};
use canvas_file_sync::tree::{Directory, File, FileBase, FileTree, IdName, RegularFile};

fn idn(id: u64, name: &str) -> IdName {
    IdName { id, name: name.to_string() }
}

fn regular(id: u64, name: &str) -> RegularFile {
    FileBase { id: idn(id, name), time: FileTime::created_at(Stamp::new(5, 0)), size: Some(3) }.into_file()
}

fn names(files: &[File]) -> Vec<String> {
    files.iter().map(|f| f.base().id.name.clone()).collect()
}

#[test]
fn module_becomes_directory_of_files() {
    let m = Module { id: idn(10, "Week 1"), completed_at: Stamp::new(7, 0), files: vec![regular(11, "a.pdf"), regular(12, "b.pdf")] };
    let d = Directory::from_module(m);
    assert_eq!(d.base.id.name, "Week 1");
    assert_eq!(d.base.time, FileTime::created_at(Stamp::new(7, 0)));
    assert_eq!(d.base.size, None);
    assert_eq!(names(&d.files), vec!["a.pdf".to_string(), "b.pdf".to_string()]);
}

#[test]
fn course_puts_folder_first() {
    let folder = FileBase::directory(idn(20, "files"), Stamp::new(1, 0)).into_directory(vec![]);
    let c = Course {
        id: idn(21, "Algebra"),
        created_at: Stamp::new(2, 0),
        modules: vec![Module { id: idn(22, "M"), completed_at: Stamp::new(3, 0), files: vec![] }],
        folder,
    };
    let d = Directory::from_course(c);
    assert_eq!(names(&d.files), vec!["files".to_string(), "M".to_string()]);
}

#[test]
fn canvas_becomes_tree_of_users() {
    let user = User { id: idn(30, "Ada"), created_at: Stamp::new(4, 0), courses: vec![] };
    let canvas = Canvas {
        base: CanvasBase { api: CoreApi::new("h.edu".to_string(), "t".to_string()), id: idn(1, "h.edu") },
        users: vec![user],
    };
    let t = FileTree::from_canvas(canvas);
    assert_eq!(t.api.domain, "h.edu");
    assert_eq!(t.root.base.id.id, 1);
    assert_eq!(names(&t.root.files), vec!["Ada".to_string()]);
}
