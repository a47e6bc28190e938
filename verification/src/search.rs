//! Records that the diff engine produces: a synthesized description of
//! a (possibly not-yet-existing) destination directory, the missing
//! file entries keyed below it, and a snapshot of a real directory
//! tree used by the filesystem-mode comparison.

use vstd::prelude::*;

verus! {

/// A synthesized destination directory: its full-path hash, its own
/// name hash (absent only at the comparison root), and an exclusively
/// owned chain of ancestors.
#[derive(Debug)]
pub struct Folder {
    pub full_path: u64,
    pub name: Option<u64>,
    pub parent: Option<Box<Folder>>,
}

impl Folder {
    /// An owned copy of the whole ancestor chain.
    pub fn duplicate(&self) -> (r: Folder)
        ensures
            r == *self,
        decreases *self,
    {
        Folder {
            full_path: self.full_path,
            name: self.name,
            parent: match &self.parent {
                Option::None => Option::None,
                Option::Some(b) => Option::Some(Box::new(b.duplicate())),
            },
        }
    }
}

/// One missing entry: a file present under the diff's source but
/// absent from its destination, carrying the reconstructed full path
/// and the ancestor chain at the point of discovery.
#[derive(Debug)]
pub struct File {
    pub full_path: u64,
    pub file_name: u64,
    pub parent: Folder,
    pub extension: u64,
}

/// A set of files, as a list of path hashes.
pub struct FileSet(pub Vec<u64>);

/// A snapshot of one real directory entry: its literal name and what
/// it is. Directory reading itself stays outside the library; a caller
/// lists the destination once and hands the listing in.
pub struct DiskEntry {
    pub name: String,
    pub node: DiskNode,
}

/// A snapshot of a real filesystem node.
pub enum DiskNode {
    File,
    Dir(Vec<DiskEntry>),
}

} // verus!
