//! The ways in which linking and unlinking fail.

use vstd::prelude::*;

verus! {

/// Why an operation on a module ended early. Every failure is final for the
/// module at hand: nothing is retried and nothing already done is undone.
#[derive(Debug)]
pub enum LinkError {
    /// `path` could not be brought into absolute or canonical form.
    PathResolution { path: String },
    /// A whole directory was to be linked at `path`, which exists already.
    AlreadyLinked { path: String },
    /// The symbolic link at `link`, pointing at `target`, could not be made.
    SymlinkCreation { target: String, link: String },
    /// `path` has no place below `base`.
    InvalidPathDifference { path: String, base: String },
    /// `path` was to be removed as a link, but is not a symbolic link.
    NotSymlinked { path: String },
    /// The entry at `path` exists and could not be removed.
    SymlinkRemoval { path: String },
    /// The directory `path` could not be created.
    DirectoryCreation { path: String },
}

/// A `LinkError` as a mathematical value.
pub enum LinkErrorView {
    PathResolution { path: Seq<char> },
    AlreadyLinked { path: Seq<char> },
    SymlinkCreation { target: Seq<char>, link: Seq<char> },
    InvalidPathDifference { path: Seq<char>, base: Seq<char> },
    NotSymlinked { path: Seq<char> },
    SymlinkRemoval { path: Seq<char> },
    DirectoryCreation { path: Seq<char> },
}

impl DeepView for LinkError {
    type V = LinkErrorView;

    open spec fn deep_view(&self) -> LinkErrorView {
        self@
    }
}

impl View for LinkError {
    type V = LinkErrorView;

    open spec fn view(&self) -> LinkErrorView {
        match *self {
            LinkError::PathResolution { path } => LinkErrorView::PathResolution { path: path@ },
            LinkError::AlreadyLinked { path } => LinkErrorView::AlreadyLinked { path: path@ },
            LinkError::SymlinkCreation { target, link } => LinkErrorView::SymlinkCreation {
                target: target@,
                link: link@,
            },
            LinkError::InvalidPathDifference { path, base } => LinkErrorView::InvalidPathDifference {
                path: path@,
                base: base@,
            },
            LinkError::NotSymlinked { path } => LinkErrorView::NotSymlinked { path: path@ },
            LinkError::SymlinkRemoval { path } => LinkErrorView::SymlinkRemoval { path: path@ },
            LinkError::DirectoryCreation { path } => LinkErrorView::DirectoryCreation { path: path@ },
        }
    }
}

/// `text` between double quotes.
pub open spec fn quoted(text: Seq<char>) -> Seq<char> {
    seq!['"'] + text + seq!['"']
}

impl LinkErrorView {
    /// The failure in words.
    pub open spec fn message(self) -> Seq<char> {
        match self {
            LinkErrorView::PathResolution { path } => "Failed to resolve "@ + quoted(path),
            LinkErrorView::AlreadyLinked { path } => quoted(path) + " already exists"@,
            LinkErrorView::SymlinkCreation { target, link } => "Failed to symlink "@ + quoted(link)
                + " -> "@ + quoted(target),
            LinkErrorView::InvalidPathDifference { path, base } => "Invalid path difference: "@
                + quoted(path) + " is not below "@ + quoted(base),
            LinkErrorView::NotSymlinked { path } => "Expected "@ + quoted(path)
                + " to be a symbolic link but it is not"@,
            LinkErrorView::SymlinkRemoval { path } => "Failed to remove "@ + quoted(path),
            LinkErrorView::DirectoryCreation { path } => "Failed to create "@ + quoted(path),
        }
    }
}

fn quote(text: &str) -> (marked: String)
    ensures
        marked@ == quoted(text@),
{
    proof {
        reveal_strlit("\"");
        assert("\""@ =~= seq!['"']);
    }
    String::from_str("\"").concat(text).concat("\"")
}

impl LinkError {
    /// Says in words what went wrong.
    pub fn message(&self) -> (text: String)
        ensures
            text@ == self@.message(),
    {
        match self {
            LinkError::PathResolution { path } => String::from_str("Failed to resolve ").concat(
                quote(path.as_str()).as_str(),
            ),
            LinkError::AlreadyLinked { path } => quote(path.as_str()).concat(" already exists"),
            LinkError::SymlinkCreation { target, link } => String::from_str(
                "Failed to symlink ",
            ).concat(quote(link.as_str()).as_str()).concat(" -> ").concat(
                quote(target.as_str()).as_str(),
            ),
            LinkError::InvalidPathDifference { path, base } => String::from_str(
                "Invalid path difference: ",
            ).concat(quote(path.as_str()).as_str()).concat(" is not below ").concat(
                quote(base.as_str()).as_str(),
            ),
            LinkError::NotSymlinked { path } => String::from_str("Expected ").concat(
                quote(path.as_str()).as_str(),
            ).concat(" to be a symbolic link but it is not"),
            LinkError::SymlinkRemoval { path } => String::from_str("Failed to remove ").concat(
                quote(path.as_str()).as_str(),
            ),
            LinkError::DirectoryCreation { path } => String::from_str("Failed to create ").concat(
                quote(path.as_str()).as_str(),
            ),
        }
    }
}

impl Clone for LinkError {
    fn clone(&self) -> (copy: LinkError)
        ensures
            copy@ == self@,
    {
        match self {
            LinkError::PathResolution { path } => LinkError::PathResolution { path: path.clone() },
            LinkError::AlreadyLinked { path } => LinkError::AlreadyLinked { path: path.clone() },
            LinkError::SymlinkCreation { target, link } => LinkError::SymlinkCreation {
                target: target.clone(),
                link: link.clone(),
            },
            LinkError::InvalidPathDifference { path, base } => LinkError::InvalidPathDifference {
                path: path.clone(),
                base: base.clone(),
            },
            LinkError::NotSymlinked { path } => LinkError::NotSymlinked { path: path.clone() },
            LinkError::SymlinkRemoval { path } => LinkError::SymlinkRemoval { path: path.clone() },
            LinkError::DirectoryCreation { path } => LinkError::DirectoryCreation {
                path: path.clone(),
            },
        }
    }
}

/// A path or the failure to get one, as a mathematical value.
pub open spec fn text_result(result: Result<String, LinkError>) -> Result<Seq<char>, LinkErrorView> {
    match result {
        Ok(text) => Ok(text@),
        Err(error) => Err(error@),
    }
}

} // verus!
