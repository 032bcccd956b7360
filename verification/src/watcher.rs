//! Events of the file system, and which of them matter.

use vstd::prelude::*;

use crate::index;
use crate::path;
use crate::text;

verus! {

broadcast use {vstd::string::group_string_axioms, vstd::seq::group_seq_axioms};

/// Events emitted by the filesystem watcher.
#[derive(Debug, PartialEq, Eq)]
pub enum FsEvent {
    Created(String),
    Modified(String),
    Removed(String),
}

/// What an event says.
pub ghost enum FsEventModel {
    Created(Seq<char>),
    Modified(Seq<char>),
    Removed(Seq<char>),
}

impl View for FsEvent {
    type V = FsEventModel;

    open spec fn view(&self) -> FsEventModel {
        match *self {
            FsEvent::Created(p) => FsEventModel::Created(p@),
            FsEvent::Modified(p) => FsEventModel::Modified(p@),
            FsEvent::Removed(p) => FsEventModel::Removed(p@),
        }
    }
}

impl FsEvent {
    /// The path that the event is about.
    pub fn path(&self) -> (p: &str)
        ensures
            match self@ {
                FsEventModel::Created(q) => p@ == q,
                FsEventModel::Modified(q) => p@ == q,
                FsEventModel::Removed(q) => p@ == q,
            },
    {
        match self {
            FsEvent::Created(p) => p.as_str(),
            FsEvent::Modified(p) => p.as_str(),
            FsEvent::Removed(p) => p.as_str(),
        }
    }
}

/// What the operating system says has happened.
#[derive(Debug, Clone, Copy, PartialEq, Eq)]
pub enum RawKind {
    Create,
    Modify,
    Remove,
    /// Anything else, such as that a file was read.
    Other,
}

/// The event that something at a path makes: none outside the root, none for what is excluded, and
/// none for what is no change.
pub open spec fn event_of(
    at: Seq<char>,
    root: Seq<char>,
    exclude: Seq<Seq<char>>,
    kind: RawKind,
) -> Option<FsEventModel> {
    if !path::starts_with(path::parts(at), path::parts(root)) {
        None
    } else {
        let parts = path::parts(at).skip(path::parts(root).len() as int);
        let rel = path::parts_text(parts);
        if index::matches_pattern(parts, exclude) {
            None
        } else {
            match kind {
                RawKind::Create => Some(FsEventModel::Created(rel)),
                RawKind::Modify => Some(FsEventModel::Modified(rel)),
                RawKind::Remove => Some(FsEventModel::Removed(rel)),
                RawKind::Other => None,
            }
        }
    }
}

/// Turns what the operating system reports of an absolute path into an event of the watched folder.
pub fn fs_event(at: &str, root: &str, exclude: &Vec<String>, kind: RawKind) -> (r: Option<FsEvent>)
    ensures
        match r {
            Some(e) => event_of(at@, root@, text::texts(exclude@), kind) == Some(e@),
            None => event_of(at@, root@, text::texts(exclude@), kind) is None,
        },
{
    let rel = match path::strip_prefix(at, root) {
        Some(rel) => rel,
        None => {
            return None;
        },
    };
    if index::some_pattern_matches(&rel, exclude) {
        return None;
    }
    let text = path::text_of_components(&rel);
    match kind {
        RawKind::Create => Some(FsEvent::Created(text)),
        RawKind::Modify => Some(FsEvent::Modified(text)),
        RawKind::Remove => Some(FsEvent::Removed(text)),
        RawKind::Other => None,
    }
}

} // verus!
