use canvas_file_sync::api::core_api::{no_query, CoreApi};
use canvas_file_sync::api::course::{Course, MaybeCourse};
use canvas_file_sync::api::link::{query_from_url, surrounded_by, Link, LinkType, Links};
use canvas_file_sync::cli::CanvasParentDir;
use canvas_file_sync::AddUser;

#[test]
fn core_api_prefixes_token() {
    let api = CoreApi::new("canvas.example.edu".to_string(), "abc".to_string());
    assert_eq!(api.authorization, "Bearer abc");
    assert_eq!(api.access_token(), "abc");
    assert_eq!(api.domain, "canvas.example.edu");
}

#[test]
fn core_api_urls() {
    let api = CoreApi::new("h.edu".to_string(), "t".to_string());
    assert_eq!(api.api_url("graphql", ""), "https://h.edu/api/graphql/");
    assert_eq!(api.rest_url("courses"), "https://h.edu/api/v1/courses");
    assert_eq!(api.download_url(&0), "https://h.edu/files/0/download?download_frd=1");
    assert_eq!(api.download_url(&1203), "https://h.edu/files/1203/download?download_frd=1");
    assert_eq!(
        api.download_url(&u64::MAX),
        "https://h.edu/files/18446744073709551615/download?download_frd=1"
    );
    let _ = no_query();
}

#[test]
fn course_endpoint_and_names() {
    let c = Course { id: 42, name: "Algebra".to_string() };
    assert_eq!(c.modules_endpoint(), "courses/42/modules");
    assert!(MaybeCourse { id: 1, name: None }.into_course().is_none());
    let c = MaybeCourse { id: 7, name: Some("X".to_string()) }.into_course().unwrap();
    assert_eq!((c.id, c.name.as_str()), (7, "X"));
}

#[test]
fn surrounded_and_query() {
    assert_eq!(surrounded_by("<abc>", '<', '>'), Some("abc"));
    assert_eq!(surrounded_by("<>", '<', '>'), None);
    assert_eq!(surrounded_by("abc", '<', '>'), None);
    assert_eq!(query_from_url("https://h/x?page=2&per_page=10"), "page=2&per_page=10");
    assert_eq!(query_from_url("https://h/x"), "");
    assert_eq!(query_from_url(""), "");
}

#[test]
fn link_types() {
    assert_eq!(LinkType::of("current"), Some(LinkType::CURRENT));
    assert_eq!(LinkType::of("next"), Some(LinkType::NEXT));
    assert_eq!(LinkType::of("first"), Some(LinkType::FIRST));
    assert_eq!(LinkType::of("last"), Some(LinkType::LAST));
    assert_eq!(LinkType::of("prev"), None);
}

#[test]
fn one_link() {
    let l = Link::of("<https://h/api/v1/courses?page=2>; rel=\"next\"").unwrap();
    assert_eq!(l.url, "https://h/api/v1/courses?page=2");
    assert_eq!(l.query, "page=2");
    assert_eq!(l.type_, LinkType::NEXT);
    assert!(!l.current);
    assert!(Link::of("<https://h>; rel=\"prev\"").is_none());
    assert!(Link::of("https://h").is_none());
}

#[test]
fn links_mark_current() {
    let raw = "<https://h/c?page=1>; rel=\"current\",<https://h/c?page=2>; rel=\"next\",<https://h/c?page=1>; rel=\"first\"";
    let links = Links::of(raw).unwrap();
    let got: Vec<(&str, LinkType, bool)> = links.iter().iter().map(|l| (l.query, l.type_, l.current)).collect();
    assert_eq!(
        got,
        vec![("page=1", LinkType::CURRENT, true), ("page=2", LinkType::NEXT, false), ("page=1", LinkType::FIRST, true)]
    );
    assert!(Links::of("<https://h/c?page=1>; rel=\"current\",garbage").is_none());
    let none_current = Links::of("<https://h/c?page=2>; rel=\"next\"").unwrap();
    assert!(!none_current.iter()[0].current);
    assert!(Links::default().iter().is_empty());
}

#[test]
fn parent_dir_and_add_user() {
    assert_eq!(CanvasParentDir("/home/u/Documents".to_string()).into_canvas_dir(), "/home/u/Documents/CanvasFileSync");
    let a = AddUser::new("tok".to_string(), vec!["my".to_string(), "school".to_string()]);
    assert_eq!(a.search, "my school");
    assert_eq!(AddUser::new("t".to_string(), vec![]).search, "");
}
