//! The paths of files.
use crate::text::texts;
use std::path::{Component, Path};
use vstd::prelude::*;

verus! {

/// The path of a file, as it was written, and its components in a form that tells files apart.
#[derive(Debug)]
pub struct FilePath {
    pub text: String,
    pub components: Vec<String>,
}

/// The mathematical form of a [`FilePath`].
pub struct PathView {
    pub text: Seq<char>,
    pub components: Seq<Seq<char>>,
}

impl View for FilePath {
    type V = PathView;

    open spec fn view(&self) -> PathView {
        PathView { text: self.text@, components: texts(self.components@) }
    }
}

/// Whether, on some system, `std::path::Path::components` takes the path `text` to be made of
/// components that are written like this.
pub uninterp spec fn has_components(text: Seq<char>, components: Seq<Seq<char>>) -> bool;

/// Whether, on some system, `std::path::Path::with_file_name` gives `path` for the path `text` and
/// the name `name`.
pub uninterp spec fn leads_to(text: Seq<char>, name: Seq<char>, path: Seq<char>) -> bool;

/// `std::path::Path::components`: the components of a path, each written as std's `Debug` shows it;
/// a prefix is written by its kind, since std compares prefixes by their kinds and not by their
/// text, so that a drive is the same however its letter is written. What separates components, and
/// so the result, depends on the system: the contract says only that it is a result for this path.
#[verifier::external_body]
fn path_components(text: &str) -> (r: Vec<String>)
    ensures
        has_components(text@, texts(r@)),
{
    Path::new(text).components().map(
        |c|
            match c {
                Component::Prefix(prefix) => format!("{:?}", prefix.kind()),
                other => format!("{:?}", other),
            },
    ).collect()
}

/// `std::path::Path::with_file_name`: the path with its last component replaced. What separates
/// components, and so the result, depends on the system: the contract says only that it is the
/// result for this path and this name.
#[verifier::external_body]
fn with_file_name(text: &str, name: &str) -> (r: String)
    ensures
        leads_to(text@, name@, r@),
{
    Path::new(text).with_file_name(name).to_string_lossy().into_owned()
}

impl PathView {
    /// Whether this is a path that `text` writes.
    pub open spec fn is_path(self, text: Seq<char>) -> bool {
        self.text == text && has_components(text, self.components)
    }

    /// Whether this is the path of a file that `from` refers to as `name`.
    pub open spec fn is_reference(self, from: Seq<char>, name: Seq<char>) -> bool {
        leads_to(from, name, self.text) && has_components(self.text, self.components)
    }
}

/// A path that a text writes has that text and its components, and the path of a file that is
/// referred to is the one that the reference leads to, with its components.
pub proof fn law_paths(path: PathView, text: Seq<char>, name: Seq<char>)
    ensures
        path.is_path(text) ==> path.text == text && has_components(text, path.components),
        path.is_reference(text, name) ==> leads_to(text, name, path.text) && has_components(
            path.text,
            path.components,
        ),
{
}

impl FilePath {
    /// The path that `text` writes. Its components depend on the system.
    pub fn new(text: &str) -> (r: FilePath)
        ensures
            r@.is_path(text@),
    {
        FilePath { text: text.to_owned(), components: path_components(text) }
    }

    /// The path of a file that this one refers to as `name`. It depends on the system.
    pub fn with_file_name(&self, name: &str) -> (r: FilePath)
        ensures
            r@.is_reference(self@.text, name@),
    {
        let text = with_file_name(self.text.as_str(), name);
        FilePath::new(text.as_str())
    }
}

} // verus!
