//! A planned download, and the rules for judging the outcome of carrying it out.
use vstd::prelude::*;

use crate::time::Stamp;
use crate::tree::{BaseView, FileBase, Id};

verus! {

/// A directory to create or a file to fetch: where it goes, and the node it stands for.
pub struct Download {
    pub file: FileBase,
    pub path: String,
}

/// What a download carries, as plain values.
pub struct DownloadView {
    pub path: Seq<char>,
    pub base: BaseView,
}

impl View for Download {
    type V = DownloadView;

    open spec fn view(&self) -> DownloadView {
        DownloadView { path: self.path@, base: self.file@ }
    }
}

/// `parent` and `name` joined by a path separator.
pub open spec fn join_path(parent: Seq<char>, name: Seq<char>) -> Seq<char> {
    parent + seq!['/'] + name
}

/// `parent` and `name` joined by a path separator.
pub fn to_path(parent: &String, name: &String) -> (r: String)
    ensures
        r@ == join_path(parent@, name@),
{
    let mut path = parent.clone();
    path.append("/");
    path.append(name.as_str());
    proof {
        reveal_strlit("/");
    }
    path
}

impl FileBase {
    /// A copy of the identity, times and size.
    pub fn copy(&self) -> (r: FileBase)
        ensures
            r@ == self@,
    {
        FileBase {
            id: crate::tree::IdName { id: self.id.id, name: self.id.name.clone() },
            time: self.time,
            size: self.size,
        }
    }

    /// Where this node goes in the directory `path`.
    pub fn to_path(&self, path: &String) -> (r: String)
        ensures
            r@ == join_path(path@, self@.name),
    {
        to_path(path, &self.id.name)
    }

    /// The download of this node into the directory `path`.
    pub fn into_download(self, path: &String) -> (r: Download)
        ensures
            r@ == (DownloadView { path: join_path(path@, self@.name), base: self@ }),
    {
        let path = to_path(path, &self.id.name);
        Download { file: self, path }
    }
}

impl Download {
    pub fn path(&self) -> (r: &String)
        ensures
            r@ == self@.path,
    {
        &self.path
    }

    /// The identifier under which the remote side serves the content.
    pub fn id(&self) -> (r: Id)
        ensures
            r == self@.base.id,
    {
        self.file.id.id
    }

    /// The address on the host `domain` that serves the content of this file.
    pub fn file_url(&self, domain: &str) -> (r: String)
        ensures
            r@ == "https://"@ + domain@ + "/files/"@ + crate::api::core_api::decimal(
                self@.base.id as nat,
            ) + "/download?download_frd=1"@,
    {
        let mut url = String::from_str("https://");
        url.append(domain);
        url.append("/files/");
        crate::api::core_api::append_decimal(&mut url, self.file.id.id);
        url.append("/download?download_frd=1");
        url
    }

    /// The time to set as the modification and access time of what was written.
    pub fn modification_time(&self) -> (r: Stamp)
        ensures
            r == self@.base.time.effective(),
    {
        self.file.time.modified()
    }
}

/// How an attempt to create a directory ended.
#[derive(Clone, Copy, Debug, PartialEq, Eq, Structural)]
pub enum CreateOutcome {
    /// The directory was created.
    Created,
    /// Something already stands at the path; `is_dir` tells whether it is a directory.
    AlreadyExists { is_dir: bool },
    /// Any other failure.
    Failed,
}

/// Creating a directory succeeds where it was created or a directory already stands there.
pub open spec fn creation_succeeded(outcome: CreateOutcome) -> bool {
    match outcome {
        CreateOutcome::Created => true,
        CreateOutcome::AlreadyExists { is_dir } => is_dir,
        CreateOutcome::Failed => false,
    }
}

/// Whether an attempt to create a directory counts as having ensured that it exists.
pub fn directory_ensured(outcome: CreateOutcome) -> (r: bool)
    ensures
        r == creation_succeeded(outcome),
{
    match outcome {
        CreateOutcome::Created => true,
        CreateOutcome::AlreadyExists { is_dir } => is_dir,
        CreateOutcome::Failed => false,
    }
}

/// The index of the first error among `results`, if any.
pub open spec fn first_error_index<E>(results: Seq<Result<(), E>>) -> Option<int>
    decreases results.len(),
{
    if results.len() == 0 {
        None
    } else {
        match first_error_index(results.drop_last()) {
            Some(i) => Some(i),
            None => if results.last() is Err {
                Some(results.len() - 1)
            } else {
                None
            },
        }
    }
}

/// The result of a batch whose tasks have all run: the first error, or success.
pub fn first_error<E>(results: Vec<Result<(), E>>) -> (r: Result<(), E>)
    ensures
        first_error_index(results@) is None ==> r is Ok,
        first_error_index(results@) matches Some(i) ==> r == results@[i],
{
    let ghost all = results@;
    let mut found: Option<E> = None;
    for res in it: results
        invariant
            it.seq() == all,
            found is None <==> first_error_index(all.take(it.index() as int)) is None,
            found matches Some(e) ==> first_error_index(all.take(it.index() as int)) matches Some(
                i,
            ) && all[i] == Err::<(), E>(e),
    {
        proof {
            let i = it.index() as int;
            assert(all.take(i + 1).drop_last() =~= all.take(i));
            assert(all.take(i + 1).last() == all[i]);
        }
        if found.is_none() {
            match res {
                Err(e) => {
                    found = Some(e);
                },
                Ok(()) => {},
            }
        }
    }
    proof {
        assert(all.take(all.len() as int) =~= all);
    }
    match found {
        Some(e) => Err(e),
        None => Ok(()),
    }
}

} // verus!
