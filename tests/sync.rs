use canvas_file_sync::api::core_api::CoreApi;
use canvas_file_sync::download::{directory_ensured, first_error, CreateOutcome, Download};
use canvas_file_sync::downloads::{Downloads, DownloadsImmut, DownloadsMut, TreeError};
use canvas_file_sync::time::{FileTime, Stamp};
use canvas_file_sync::tree::{Directory, File, FileBase, FileTree, IdName, RegularFile};
use ignore::gitignore::{Gitignore, GitignoreBuilder};

fn at(secs: i64) -> FileTime {
    FileTime::created_at(Stamp::new(secs, 0))
}

fn base(id: u64, name: &str, time: FileTime) -> FileBase {
    FileBase { id: IdName { id, name: name.to_string() }, time, size: None }
}

fn file(id: u64, name: &str, secs: i64) -> File {
    File::RegularFile(RegularFile { base: base(id, name, at(secs)) })
}

fn dir(id: u64, name: &str, secs: i64, files: Vec<File>) -> Directory {
    Directory { base: base(id, name, at(secs)), files }
}

fn api() -> CoreApi {
    CoreApi { domain: "canvas.example.edu".to_string(), authorization: "Bearer t".to_string() }
}

fn tree(root: Directory) -> FileTree {
    FileTree { api: api(), root }
}

fn ids(files: &[File]) -> Vec<u64> {
    files.iter().map(|f| f.id()).collect()
}

fn no_rules() -> Gitignore {
    Gitignore::empty()
}

fn rules(root: &str, lines: &[&str]) -> Gitignore {
    let mut b = GitignoreBuilder::new(root);
    for l in lines {
        b.add_line(None, l).unwrap();
    }
    b.build().unwrap()
}

fn downloads(root: &str, ignore: Gitignore, current: Directory) -> Downloads {
    Downloads::new(DownloadsImmut {
        root: root.to_string(),
        ignore,
        current_file_tree: tree(current),
    })
}

fn paths(ds: &[Download]) -> Vec<String> {
    ds.iter().map(|d| d.path().clone()).collect()
}

#[test]
fn diff_updated_and_new_files() {
    let old = dir(1, "D", 10, vec![file(2, "F", 10)]);
    let new = dir(1, "D", 20, vec![file(2, "F", 20), file(3, "G", 20)]);
    let d = new.diff(&old).expect("the directory is newer");
    assert_eq!(ids(&d.files), vec![2, 3]);
    assert_eq!(d.base.time.modified(), Stamp::new(20, 0));
}

#[test]
fn plan_updated_and_new_files() {
    let old = dir(1, "D", 10, vec![file(2, "F", 10)]);
    let new = dir(1, "D", 20, vec![file(2, "F", 20), file(3, "G", 20)]);
    let mut dl = downloads("/m", no_rules(), old);
    assert!(dl.add_file_tree(tree(new)));
    assert_eq!(paths(&dl.pending.directories), vec!["/m/D".to_string()]);
    assert_eq!(paths(&dl.pending.files), vec!["/m/D/F".to_string(), "/m/D/G".to_string()]);
    assert_eq!(dl.pending.files[1].id(), 3);
    assert_eq!(dl.pending.files[0].modification_time(), Stamp::new(20, 0));
}

#[test]
fn unchanged_directory_gates_descent() {
    let old = dir(1, "D", 10, vec![file(2, "F", 10)]);
    let new = dir(1, "D", 10, vec![file(2, "F", 30), file(3, "G", 30)]);
    assert!(new.diff(&old).is_none());
}

#[test]
fn unchanged_snapshot_plans_nothing() {
    let old = dir(1, "D", 10, vec![file(2, "F", 10)]);
    let new = dir(1, "D", 10, vec![file(2, "F", 30)]);
    let mut dl = downloads("/m", no_rules(), old);
    assert!(!dl.add_file_tree(tree(new)));
    assert!(dl.pending.directories.is_empty());
    assert!(dl.pending.files.is_empty());
}

#[test]
fn diff_of_itself_is_empty() {
    let t = dir(1, "D", 10, vec![file(2, "F", 10), File::Directory(dir(4, "E", 10, vec![]))]);
    let same = dir(1, "D", 10, vec![file(2, "F", 10), File::Directory(dir(4, "E", 10, vec![]))]);
    assert!(t.diff(&same).is_none());
}

#[test]
fn diff_leaves_out_files_that_did_not_advance() {
    let old = dir(1, "D", 10, vec![file(2, "F", 10), file(3, "G", 15)]);
    let new = dir(1, "D", 20, vec![file(2, "F", 10), file(3, "G", 14)]);
    let d = new.diff(&old).unwrap();
    assert!(d.files.is_empty());
}

#[test]
fn diff_with_other_identifier_is_empty() {
    let old = dir(1, "D", 10, vec![]);
    let new = dir(9, "D", 20, vec![]);
    assert!(new.diff(&old).is_none());
}

#[test]
fn effective_time_prefers_modified_then_updated() {
    let t = FileTime {
        created_at: Stamp::new(1, 0),
        updated_at: Some(Stamp::new(2, 0)),
        modified_at: Some(Stamp::new(3, 5)),
    };
    assert_eq!(t.modified(), Stamp::new(3, 5));
    let u = FileTime { modified_at: None, ..t };
    assert_eq!(u.modified(), Stamp::new(2, 0));
    let c = FileTime { updated_at: None, ..u };
    assert_eq!(c.modified(), Stamp::new(1, 0));
    assert!(t.is_newer_than(&u));
    assert!(!c.is_newer_than(&c));
    assert!(Stamp::new(3, 6).later_than(&Stamp::new(3, 5)));
    assert!(!Stamp::new(2, 9).later_than(&Stamp::new(3, 0)));
}

#[test]
fn ignored_directory_prunes_its_subtree() {
    let old = dir(1, "root", 10, vec![]);
    let new = dir(
        1,
        "root",
        20,
        vec![
            File::Directory(dir(5, "D", 20, vec![file(6, "inner", 20), File::Directory(dir(7, "E", 20, vec![]))])),
            file(8, "keep", 20),
        ],
    );
    let mut dl = downloads("/m", rules("/m", &["/root/D/"]), old);
    assert!(dl.add_file_tree(tree(new)));
    assert_eq!(paths(&dl.pending.directories), vec!["/m/root".to_string()]);
    assert_eq!(paths(&dl.pending.files), vec!["/m/root/keep".to_string()]);
}

#[test]
fn ignored_file_is_left_out() {
    let old = dir(1, "root", 10, vec![]);
    let new = dir(1, "root", 20, vec![file(2, "a.log", 20), file(3, "b.txt", 20)]);
    let mut dl = downloads("/m", rules("/m", &["*.log"]), old);
    assert!(dl.add_file_tree(tree(new)));
    assert_eq!(paths(&dl.pending.files), vec!["/m/root/b.txt".to_string()]);
}

#[test]
fn directories_come_parent_first() {
    let old = dir(1, "r", 10, vec![]);
    let new = dir(
        1,
        "r",
        20,
        vec![File::Directory(dir(2, "a", 20, vec![File::Directory(dir(3, "b", 20, vec![]))])), File::Directory(dir(4, "c", 20, vec![]))],
    );
    let mut dl = downloads("/m", no_rules(), old);
    assert!(dl.add_file_tree(tree(new)));
    assert_eq!(
        paths(&dl.pending.directories),
        vec!["/m/r".to_string(), "/m/r/a".to_string(), "/m/r/a/b".to_string(), "/m/r/c".to_string()]
    );
}

#[test]
fn merge_keeps_untouched_entries() {
    let old = dir(1, "D", 10, vec![file(2, "F", 10), file(5, "H", 10)]);
    let new = dir(1, "D", 20, vec![file(2, "F", 20), file(3, "G", 20)]);
    let mut dl = downloads("/m", no_rules(), old);
    assert!(dl.add_file_tree(tree(new)));
    let root = &dl.immut.current_file_tree.root;
    assert_eq!(ids(&root.files), vec![2, 3, 5]);
    assert_eq!(root.base.time.modified(), Stamp::new(20, 0));
    assert_eq!(root.files[0].base().time.modified(), Stamp::new(20, 0));
    assert_eq!(root.files[2].base().time.modified(), Stamp::new(10, 0));
}

#[test]
fn merge_file_takes_time_and_size() {
    let mut old = RegularFile { base: base(2, "F", at(10)) };
    let mut newer = base(2, "F2", at(20));
    newer.size = Some(42);
    old.merge(RegularFile { base: newer });
    assert_eq!(old.base.size, Some(42));
    assert_eq!(old.base.time.modified(), Stamp::new(20, 0));
    assert_eq!(old.base.id.name, "F");
}

#[test]
fn merge_then_diff_again_is_empty() {
    let old = dir(1, "D", 10, vec![file(2, "F", 10)]);
    let new = dir(1, "D", 20, vec![file(2, "F", 20), file(3, "G", 20)]);
    let again = dir(1, "D", 20, vec![file(2, "F", 20), file(3, "G", 20)]);
    let mut dl = downloads("/m", no_rules(), old);
    assert!(dl.add_file_tree(tree(new)));
    assert!(!dl.add_file_tree(tree(again)));
}

#[test]
fn one_failed_fetch_reports_one_error() {
    let results: Vec<Result<(), String>> = vec![Ok(()), Err("fetch of 3 failed".to_string())];
    assert_eq!(first_error(results), Err("fetch of 3 failed".to_string()));
    let results: Vec<Result<(), String>> = vec![Err("a".to_string()), Err("b".to_string())];
    assert_eq!(first_error(results), Err("a".to_string()));
    let results: Vec<Result<(), String>> = vec![Ok(()), Ok(())];
    assert_eq!(first_error(results), Ok(()));
    assert_eq!(first_error(Vec::<Result<(), String>>::new()), Ok(()));
}

#[test]
fn existing_directory_counts_as_created() {
    assert!(directory_ensured(CreateOutcome::Created));
    assert!(directory_ensured(CreateOutcome::AlreadyExists { is_dir: true }));
    assert!(!directory_ensured(CreateOutcome::AlreadyExists { is_dir: false }));
    assert!(!directory_ensured(CreateOutcome::Failed));
}

#[test]
fn downloads_mut_sorts_by_kind() {
    let mut m = DownloadsMut::new();
    m.add(base(1, "a", at(1)).into_download(&"/x".to_string()), true);
    m.add(base(2, "b", at(1)).into_download(&"/x".to_string()), false);
    assert_eq!(paths(&m.directories), vec!["/x/a".to_string()]);
    assert_eq!(paths(&m.files), vec!["/x/b".to_string()]);
}

#[test]
fn diff_nodes_match_the_new_snapshot() {
    let old = dir(1, "D", 10, vec![File::Directory(dir(4, "E", 10, vec![file(5, "x", 10)]))]);
    let new = dir(
        1,
        "D",
        20,
        vec![File::Directory(dir(4, "E2", 20, vec![file(5, "x", 25), file(6, "y", 5)]))],
    );
    let d = new.diff(&old).unwrap();
    assert_eq!(d.base.id.name, "D");
    match &d.files[0] {
        File::Directory(e) => {
            assert_eq!(e.base.id.name, "E2");
            assert_eq!(e.base.time.modified(), Stamp::new(20, 0));
            assert_eq!(ids(&e.files), vec![5, 6]);
            assert_eq!(e.files[0].base().time.modified(), Stamp::new(25, 0));
        }
        File::RegularFile(_) => panic!("a directory was expected"),
    }
}

#[test]
fn merge_renames_nothing_and_recurses() {
    let old = dir(1, "D", 10, vec![File::Directory(dir(4, "E", 10, vec![file(5, "x", 10), file(7, "z", 10)]))]);
    let new = dir(1, "D", 20, vec![File::Directory(dir(4, "E2", 20, vec![file(5, "x", 25)]))]);
    let mut dl = downloads("/m", no_rules(), old);
    assert!(dl.add_file_tree(tree(new)));
    let root = &dl.immut.current_file_tree.root;
    match &root.files[0] {
        File::Directory(e) => {
            assert_eq!(e.base.id.name, "E");
            assert_eq!(e.base.time.modified(), Stamp::new(20, 0));
            assert_eq!(ids(&e.files), vec![5, 7]);
            assert_eq!(e.files[0].base().time.modified(), Stamp::new(25, 0));
            assert_eq!(e.files[1].base().time.modified(), Stamp::new(10, 0));
        }
        File::RegularFile(_) => panic!("a directory was expected"),
    }
}

#[test]
fn checks_before_comparing() {
    let stored = || dir(1, "D", 10, vec![file(2, "F", 10)]);
    let mut dl = downloads("/m", no_rules(), stored());
    assert_eq!(dl.try_add_file_tree(tree(dir(9, "D", 20, vec![]))), Err(TreeError::RootMismatch));
    let twice = dir(1, "D", 20, vec![file(3, "a", 20), file(3, "b", 20)]);
    assert_eq!(dl.try_add_file_tree(tree(twice)), Err(TreeError::DuplicateInNew));
    let kinds = dir(1, "D", 20, vec![File::Directory(dir(2, "F", 20, vec![]))]);
    assert_eq!(dl.try_add_file_tree(tree(kinds)), Err(TreeError::KindMismatch));
    assert!(dl.pending.directories.is_empty());
    let mut bad = downloads("/m", no_rules(), dir(1, "D", 10, vec![file(2, "a", 1), file(2, "b", 1)]));
    assert_eq!(bad.try_add_file_tree(tree(dir(1, "D", 20, vec![]))), Err(TreeError::DuplicateInStored));
    assert_eq!(dl.try_add_file_tree(tree(dir(1, "D", 20, vec![file(2, "F", 30)]))), Ok(true));
    assert_eq!(paths(&dl.pending.files), vec!["/m/D/F".to_string()]);
}

#[test]
fn well_formed_and_kinds() {
    assert!(dir(1, "D", 1, vec![file(2, "a", 1), file(3, "a", 1)]).is_well_formed());
    assert!(!dir(1, "D", 1, vec![file(2, "a", 1), file(2, "b", 1)]).is_well_formed());
    let nested_bad = dir(1, "D", 1, vec![File::Directory(dir(2, "E", 1, vec![file(3, "a", 1), file(3, "b", 1)]))]);
    assert!(!nested_bad.is_well_formed());
    let a = dir(1, "D", 1, vec![file(2, "a", 1), File::Directory(dir(3, "E", 1, vec![]))]);
    let b = dir(1, "D", 1, vec![file(2, "a", 1), file(4, "E", 1)]);
    let c = dir(1, "D", 1, vec![File::Directory(dir(2, "a", 1, vec![]))]);
    assert!(a.kinds_agree_with(&b));
    assert!(!a.kinds_agree_with(&c));
}

#[test]
fn default_time_is_now() {
    let t = FileTime::default();
    assert!(t.created_at.secs > 1_600_000_000);
    assert!(t.updated_at.is_none() && t.modified_at.is_none());
}

#[test]
fn paths_and_urls_of_downloads() {
    assert_eq!(FileTree::default_path(&"/m".to_string()), "/m/file_tree.json");
    let b = base(77, "notes.pdf", at(3));
    assert_eq!(b.to_path(&"/m/D".to_string()), "/m/D/notes.pdf");
    let d = b.into_download(&"/m/D".to_string());
    assert_eq!(d.file_url("h.edu"), "https://h.edu/files/77/download?download_frd=1");
    assert_eq!(d.id(), 77);
}
