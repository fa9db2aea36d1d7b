//! What a scan records of one file, directory or symlink.

use crate::path::UnixPath;
use vstd::prelude::*;

verus! {

/// The kind of an entry, with the bytes of a symlink's target.
pub enum KindView {
    File,
    Dir,
    Symlink(Seq<u8>),
}

/// The contents of a [`FileEntry`].
pub struct EntryView {
    pub kind: KindView,
    pub size: u64,
    pub mtime: i64,
    pub mode: u32,
}

/// Both are files, both are directories or both are symlinks.
pub open spec fn same_type(a: KindView, b: KindView) -> bool {
    match (a, b) {
        (KindView::File, KindView::File) => true,
        (KindView::Dir, KindView::Dir) => true,
        (KindView::Symlink(_), KindView::Symlink(_)) => true,
        _ => false,
    }
}

#[derive(Debug, PartialEq, Eq)]
pub enum EntryKind {
    File,
    Dir,
    /// A symlink. `target` is the (non-dereferenced) link target.
    Symlink { target: UnixPath },
}

impl View for EntryKind {
    type V = KindView;

    open spec fn view(&self) -> KindView {
        match self {
            EntryKind::File => KindView::File,
            EntryKind::Dir => KindView::Dir,
            EntryKind::Symlink { target } => KindView::Symlink(target@),
        }
    }
}

#[derive(Debug, PartialEq, Eq)]
pub struct FileEntry {
    pub kind: EntryKind,
    pub size: u64,
    /// mtime in whole seconds since the epoch.
    pub mtime: i64,
    /// Unix permissions, without the file type bits.
    pub mode: u32,
}

impl View for FileEntry {
    type V = EntryView;

    open spec fn view(&self) -> EntryView {
        EntryView { kind: self.kind@, size: self.size, mtime: self.mtime, mode: self.mode }
    }
}

impl Clone for EntryKind {
    fn clone(&self) -> (copy: Self)
        ensures
            copy@ == self@,
    {
        match self {
            EntryKind::File => EntryKind::File,
            EntryKind::Dir => EntryKind::Dir,
            EntryKind::Symlink { target } => EntryKind::Symlink { target: target.duplicate() },
        }
    }
}

impl Clone for FileEntry {
    fn clone(&self) -> (copy: Self)
        ensures
            copy@ == self@,
    {
        FileEntry { kind: self.kind.clone(), size: self.size, mtime: self.mtime, mode: self.mode }
    }
}

impl EntryKind {
    /// Compares only the type of two kinds (ignoring the symlink target).
    pub fn same_type(&self, other: &EntryKind) -> (same: bool)
        ensures
            same == same_type(self@, other@),
    {
        match (self, other) {
            (EntryKind::File, EntryKind::File) => true,
            (EntryKind::Dir, EntryKind::Dir) => true,
            (EntryKind::Symlink { .. }, EntryKind::Symlink { .. }) => true,
            _ => false,
        }
    }
}

} // verus!
