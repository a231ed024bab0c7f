//! A path that can be shown and compared.

use crate::path::{is_normal, parse, Path, PathView};
use vstd::prelude::*;

verus! {

/// One layer around a path, so that a suite's root can be compared and shown.
#[derive(Debug, PartialEq)]
pub struct PathWrapper {
    value: Path,
}

impl View for PathWrapper {
    type V = PathView;

    closed spec fn view(&self) -> PathView {
        self.value@
    }
}

impl PathWrapper {
    /// The path inside.
    pub fn get(&self) -> (path: &Path)
        ensures
            path@ == self@,
    {
        &self.value
    }

    /// The wrapper of the path that `path` names.
    pub fn from_str(path: &str) -> (wrapper: PathWrapper)
        ensures
            wrapper@ == parse(path@),
            is_normal(wrapper@),
    {
        PathWrapper { value: Path::new(path) }
    }

    /// The wrapper of `path`.
    pub fn new(path: Path) -> (wrapper: PathWrapper)
        ensures
            wrapper@ == path@,
    {
        PathWrapper { value: path }
    }
}

} // verus!
