//! Archive references: the path of an archive and the short label under
//! which the report attributes entries to it.

use std::rc::Rc;
use vstd::prelude::*;

verus! {

/// What `std::path::Path::file_name` returns for the path spelled `path`:
/// its final component as `std::path` parses paths, or `None` where it has
/// none (the empty path, a root, a path that ends in `..`).
pub uninterp spec fn path_file_name(path: Seq<char>) -> Option<Seq<char>>;

/// Calls `std::path::Path::file_name` on `path` and copies the component
/// into a `String`. The path comes from a `&str`, so the component is
/// valid UTF-8 and the copy is exact.
#[verifier::external_body]
fn file_name_of(path: &str) -> (name: Option<String>)
    ensures
        match name {
            Some(text) => path_file_name(path@) == Some(text@),
            None => path_file_name(path@) is None,
        },
{
    let name = std::path::Path::new(path).file_name()?;
    Some(name.to_string_lossy().into_owned())
}

/// The label of the archive at `path`: the final component of the path.
/// The path must have one.
pub fn get_jar_name(path: &str) -> (label: String)
    requires
        path_file_name(path@) is Some,
    ensures
        Some(label@) == path_file_name(path@),
{
    match file_name_of(path) {
        Some(file_name) => file_name,
        None => vstd::pervasive::unreached(),
    }
}

/// An archive of the classpath: where it is, and its label. The label is
/// made once and shared by every observation that names the archive.
pub struct ArchiveRef {
    path: String,
    label: Rc<String>,
}

impl ArchiveRef {
    /// The path as a mathematical value.
    pub closed spec fn path_view(&self) -> Seq<char> {
        self.path@
    }

    /// The label as a mathematical value.
    pub closed spec fn label_view(&self) -> Seq<char> {
        self.label@
    }

    /// Makes the reference for `path`, or `None` where the path has no
    /// final component to take the label from.
    pub fn new(path: &str) -> (made: Option<ArchiveRef>)
        ensures
            match made {
                Some(archive) => archive.path_view() == path@ && Some(archive.label_view())
                    == path_file_name(path@),
                None => path_file_name(path@) is None,
            },
    {
        match file_name_of(path) {
            Some(_) => {
                let label = Rc::new(get_jar_name(path));
                Some(ArchiveRef { path: path.to_owned(), label })
            },
            None => None,
        }
    }

    /// The path that the reference was made for.
    pub fn path(&self) -> (path: &String)
        ensures
            path@ == self.path_view(),
    {
        &self.path
    }

    /// The shared label.
    pub fn label(&self) -> (label: &Rc<String>)
        ensures
            label@ == self.label_view(),
    {
        &self.label
    }
}

} // verus!
