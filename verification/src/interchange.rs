//! The manifest as it is written down, before any path is resolved.
//!
//! A decoder hands these records over; nothing here depends on the format
//! that the manifest was stored in.

use crate::path::{Path, PathView};
use vstd::prelude::*;

verus! {

/// What a declared suite is.
pub struct ManifestSuiteView {
    pub group: Seq<char>,
    pub paths: Seq<Seq<char>>,
    pub executable: Seq<char>,
}

/// What a manifest is.
pub struct ManifestView {
    pub manifests: Option<Seq<PathView>>,
    pub suites: Seq<ManifestSuiteView>,
}

/// One manifest file: the suites it declares and the manifests it refers to.
#[derive(Debug)]
pub struct Manifest {
    /// Other manifests, each relative to the directory of this one.
    pub manifests: Option<Vec<Path>>,
    /// The suites declared here.
    pub suites: Vec<ManifestSuite>,
}

/// One suite as a manifest declares it.
#[derive(Debug)]
pub struct ManifestSuite {
    /// The group this suite belongs to.
    pub group: String,
    /// Glob patterns, relative to the directory of the manifest.
    pub paths: Vec<String>,
    /// The command that runs a file of this suite.
    pub executable: String,
}

/// The texts of a list of strings.
pub open spec fn texts(strings: Seq<String>) -> Seq<Seq<char>> {
    strings.map_values(|text: String| text@)
}

impl View for ManifestSuite {
    type V = ManifestSuiteView;

    open spec fn view(&self) -> ManifestSuiteView {
        ManifestSuiteView {
            group: self.group@,
            paths: texts(self.paths@),
            executable: self.executable@,
        }
    }
}

impl View for Manifest {
    type V = ManifestView;

    open spec fn view(&self) -> ManifestView {
        ManifestView {
            manifests: match self.manifests {
                Some(list) => Some(list@.map_values(|path: Path| path@)),
                None => None,
            },
            suites: self.suites@.map_values(|suite: ManifestSuite| suite@),
        }
    }
}

} // verus!
