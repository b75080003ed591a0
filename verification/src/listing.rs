//! Listed directory entries, as the picker sees them.

use vstd::prelude::*;

verus! {

/// What an entry is.
#[derive(Clone, Copy, Debug, PartialEq, Eq, Structural)]
pub enum FileKind {
    Dir,
    File,
    Link,
}

/// What a listing is made with.
#[derive(Debug)]
pub struct Options {
    pub depth: usize,
    pub skip_dirs: Vec<String>,
    pub follow_mounts: bool,
    pub show_dots: bool,
}

/// One listed entry.
#[derive(Debug)]
pub struct Entry {
    /// Path relative to the listed root, for display.
    pub label: String,
    /// Last component of the label.
    pub basename: String,
    /// Last component of the path, as raw bytes.
    pub raw_basename: Vec<u8>,
    /// Absolute path, as raw bytes.
    pub path: Vec<u8>,
    /// First byte of the basename in ASCII lower case.
    pub name0: u8,
    /// How many directories below the root; direct children have depth one.
    pub depth: usize,
    pub kind: FileKind,
}

/// An entry as a mathematical value.
pub struct EntryView {
    pub label: Seq<char>,
    pub basename: Seq<char>,
    pub raw_basename: Seq<u8>,
    pub path: Seq<u8>,
    pub name0: u8,
    pub depth: usize,
    pub kind: FileKind,
}

impl View for Entry {
    type V = EntryView;

    open spec fn view(&self) -> EntryView {
        EntryView {
            label: self.label@,
            basename: self.basename@,
            raw_basename: self.raw_basename@,
            path: self.path@,
            name0: self.name0,
            depth: self.depth,
            kind: self.kind,
        }
    }
}

impl Clone for Entry {
    fn clone(&self) -> (r: Entry)
        ensures
            r@ == self@,
    {
        let r = Entry {
            label: self.label.clone(),
            basename: self.basename.clone(),
            raw_basename: self.raw_basename.clone(),
            path: self.path.clone(),
            name0: self.name0,
            depth: self.depth,
            kind: self.kind,
        };
        assert(r.raw_basename@ =~= self.raw_basename@);
        assert(r.path@ =~= self.path@);
        r
    }
}

/// The entries of a listing as mathematical values.
pub open spec fn views(entries: Seq<Entry>) -> Seq<EntryView> {
    entries.map_values(|e: Entry| e@)
}

/// A copy of a listing.
pub fn copy_entries(entries: &Vec<Entry>) -> (r: Vec<Entry>)
    ensures
        views(r@) == views(entries@),
{
    let r = entries.clone();
    assert(views(r@) =~= views(entries@));
    r
}

/// Whether a file mode lets anyone execute the file.
pub fn has_exec_bit(mode: u32) -> (r: bool)
    ensures
        r == (mode & 0o111 != 0),
{
    mode & 0o111 != 0
}

} // verus!
