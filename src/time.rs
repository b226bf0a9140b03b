//! Points in time and the three timestamps that every node of a file tree carries.
use vstd::prelude::*;

verus! {

/// A point in time: whole seconds since the Unix epoch and the nanoseconds past them.
///
/// Instants are ordered by seconds first, then by nanoseconds.
#[derive(Clone, Copy, Debug, PartialEq, Eq, Structural)]
pub struct Stamp {
    pub secs: i64,
    pub nanos: u32,
}

impl Stamp {
    /// `self` lies strictly after `other`.
    pub open spec fn is_after(self, other: Stamp) -> bool {
        self.secs > other.secs || (self.secs == other.secs && self.nanos > other.nanos)
    }

    pub fn new(secs: i64, nanos: u32) -> (r: Stamp)
        ensures
            r == (Stamp { secs, nanos }),
    {
        Stamp { secs, nanos }
    }

    pub fn later_than(&self, other: &Stamp) -> (r: bool)
        ensures
            r == self.is_after(*other),
    {
        self.secs > other.secs || (self.secs == other.secs && self.nanos > other.nanos)
    }
}

/// Relies on chrono's `Local::now`, `timestamp` and `timestamp_subsec_nanos`: the current
/// time, whose sub-second part stays below two seconds (a leap second runs past one).
#[verifier::external_body]
pub(crate) fn now() -> (r: Stamp)
    ensures
        r.nanos < 2_000_000_000,
{
    let t = chrono::Local::now();
    Stamp { secs: t.timestamp(), nanos: t.timestamp_subsec_nanos() }
}

/// When a node was created and, if known, last updated and last modified.
#[derive(Clone, Copy, Debug, PartialEq, Eq, Structural)]
pub struct FileTime {
    pub created_at: Stamp,
    pub updated_at: Option<Stamp>,
    pub modified_at: Option<Stamp>,
}

impl FileTime {
    /// The effective modification time: `modified_at`, else `updated_at`, else `created_at`.
    pub open spec fn effective(self) -> Stamp {
        match self.modified_at {
            Some(m) => m,
            None => match self.updated_at {
                Some(u) => u,
                None => self.created_at,
            },
        }
    }

    /// The effective modification time of `self` lies strictly after that of `other`.
    pub open spec fn newer_than(self, other: FileTime) -> bool {
        self.effective().is_after(other.effective())
    }

    pub fn created_at(created_at: Stamp) -> (r: FileTime)
        ensures
            r == (FileTime { created_at, updated_at: None, modified_at: None }),
    {
        FileTime { created_at, updated_at: None, modified_at: None }
    }

    pub fn modified(&self) -> (r: Stamp)
        ensures
            r == self.effective(),
    {
        match self.modified_at {
            Some(m) => m,
            None => match self.updated_at {
                Some(u) => u,
                None => self.created_at,
            },
        }
    }

    pub fn is_newer_than(&self, other: &FileTime) -> (r: bool)
        ensures
            r == self.newer_than(*other),
    {
        self.modified().later_than(&other.modified())
    }
}

impl Default for FileTime {
    /// A time created now, never updated nor modified.
    fn default() -> (r: FileTime)
        ensures
            r.updated_at.is_none(),
            r.modified_at.is_none(),
    {
        FileTime::created_at(now())
    }
}

} // verus!
