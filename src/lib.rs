//! Incremental mirroring of a remotely described file tree onto local storage.
//!
//! A fresh snapshot of the remote tree is compared with the stored one ([`diff`]); what is
//! new or newer is flattened into directories to create and files to fetch, leaving out what
//! the ignore rules exclude ([`downloads`]); and the change set is folded back into the
//! stored snapshot ([`merge`]).
pub mod api;
pub mod canvas;
pub mod cli;
pub mod diff;
pub mod download;
pub mod downloads;
pub mod merge;
pub mod time;
pub mod tree;

use itertools::Itertools;
use vstd::prelude::*;

verus! {

/// A mirror: the directory it lives in, and whether to leave version control out of it.
pub struct CanvasFileSync {
    pub dir: String,
    pub skip_git: bool,
}

/// A request to add an account: its access token, and the words to search its host by.
pub struct AddUser {
    pub access_token: String,
    pub search: String,
}

/// `words` with `sep` between each two of them.
pub open spec fn joined(words: Seq<Seq<char>>, sep: Seq<char>) -> Seq<char>
    decreases words.len(),
{
    if words.len() == 0 {
        Seq::empty()
    } else if words.len() == 1 {
        words[0]
    } else {
        joined(words.drop_last(), sep) + sep + words.last()
    }
}

pub open spec fn view_strings(words: Seq<String>) -> Seq<Seq<char>> {
    words.map_values(|w: String| w@)
}

/// Relies on itertools' `Itertools::join`: the words, in order, with a space between each
/// two of them.
#[verifier::external_body]
fn join_words(words: &Vec<String>) -> (r: String)
    ensures
        r@ == joined(view_strings(words@), seq![' ']),
{
    words.iter().join(" ")
}

impl AddUser {
    /// A request whose search is the given words joined by spaces.
    pub fn new(access_token: String, search: Vec<String>) -> (r: AddUser)
        ensures
            r.access_token == access_token,
            r.search@ == joined(view_strings(search@), seq![' ']),
    {
        AddUser { access_token, search: join_words(&search) }
    }
}

} // verus!
