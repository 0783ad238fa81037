//! The data model: searchable items and the result union.

use vstd::prelude::*;

verus! {

/// An application record: an entry eligible for search.
///
/// `name` is the text actually searched and doubles as the identifier used
/// for result rehydration; `icon` and `path` are payload returned verbatim on
/// a hit.
#[derive(Debug, Clone, PartialEq, Eq)]
pub struct App {
    pub name: String,
    pub icon: String,
    pub path: String,
}

/// The fields read out of an application bundle's property list by the
/// discovery collaborator: the bundle's display name and its icon file.
#[derive(Debug, Clone, PartialEq, Eq)]
pub struct AppInfo {
    pub bundle_name: String,
    pub icon: String,
}

/// A search result: a closed union over result kinds, dispatched by tag.
///
/// Today exactly one variant exists; future result kinds are added as new
/// variants, each carrying its own payload shape.
#[derive(Debug, Clone, PartialEq, Eq)]
pub enum SearchResultItem {
    App(App),
}

} // verus!
