//! Suites as the identifier works on them: a root, patterns anchored at that
//! root, and an executable.

use crate::path::{join, parse, render, Path, PathView};
use crate::util::PathWrapper;
use vstd::prelude::*;

verus! {

/// How a pattern is held against a text.
#[derive(Debug, Clone, Copy)]
pub struct MatchOptions {
    /// Letters match only in their own case.
    pub case_sensitive: bool,
    /// A separator in the text is matched only by a separator in the pattern.
    pub require_literal_separator: bool,
    /// A dot at the start of a component is matched only by a dot in the
    /// pattern.
    pub require_literal_leading_dot: bool,
}

/// What the glob crate answers for a pattern and a text under the three
/// options: `None` where the pattern does not compile, else whether the
/// whole text matches.
pub uninterp spec fn glob_outcome(
    pattern: Seq<char>,
    text: Seq<char>,
    case_sensitive: bool,
    require_literal_separator: bool,
    require_literal_leading_dot: bool,
) -> Option<bool>;

/// Compiles `pattern` with `glob::Pattern::new` and asks the compiled pattern,
/// with `glob::Pattern::matches_with`, whether `text` matches under `options`.
/// The contract names the answer and claims only that it depends on nothing
/// but the arguments; `None` stands for a pattern that the crate rejects.
#[verifier::external_body]
fn glob_matches_with(pattern: &str, text: &str, options: MatchOptions) -> (outcome: Option<bool>)
    ensures
        outcome == glob_outcome(
            pattern@,
            text@,
            options.case_sensitive,
            options.require_literal_separator,
            options.require_literal_leading_dot,
        ),
{
    match glob::Pattern::new(pattern) {
        Ok(compiled) => Some(
            compiled.matches_with(
                text,
                glob::MatchOptions {
                    case_sensitive: options.case_sensitive,
                    require_literal_separator: options.require_literal_separator,
                    require_literal_leading_dot: options.require_literal_leading_dot,
                },
            ),
        ),
        Err(_) => None,
    }
}

/// Whether `pattern` compiles and matches `text` under the options. A pattern
/// that does not compile matches nothing.
pub open spec fn pattern_matches(pattern: Seq<char>, text: Seq<char>, options: MatchOptions) -> bool {
    glob_outcome(
        pattern,
        text,
        options.case_sensitive,
        options.require_literal_separator,
        options.require_literal_leading_dot,
    ) == Some(true)
}

/// The options of a plain match: case matters, and wildcards may stand for
/// separators and leading dots.
pub open spec fn plain_options() -> MatchOptions {
    MatchOptions {
        case_sensitive: true,
        require_literal_separator: false,
        require_literal_leading_dot: false,
    }
}

/// The options under which a suite owns a file: case matters, a wildcard
/// never crosses a directory level, and a leading dot is nothing special.
pub open spec fn suite_options() -> MatchOptions {
    MatchOptions {
        case_sensitive: true,
        require_literal_separator: true,
        require_literal_leading_dot: false,
    }
}

/// The text of the pattern that `raw` becomes under `root`.
pub open spec fn anchored(root: PathView, raw: Seq<char>) -> Seq<char> {
    render(join(root, parse(raw)))
}

/// Whether an answer of the glob crate says that the text matches: a pattern
/// that did not compile matches nothing.
pub fn is_match(outcome: Option<bool>) -> (yes: bool)
    ensures
        yes == (outcome == Some(true)),
{
    match outcome {
        Some(yes) => yes,
        None => false,
    }
}

/// A glob pattern anchored at a suite's root.
#[derive(Debug, PartialEq)]
pub struct SuitePath {
    /// The pattern: the root joined with the pattern as it was declared.
    pub path: String,
}

impl SuitePath {
    /// The pattern `path` anchored at `root`.
    pub fn new(root: &PathWrapper, path: String) -> (anchored_path: SuitePath)
        ensures
            anchored_path.path@ == anchored(root@, path@),
    {
        let joined = root.get().join(&Path::new(path.as_str()));
        SuitePath { path: joined.display() }
    }

    /// Whether the pattern compiles and matches the whole of `text`, where a
    /// wildcard may stand for a separator.
    pub fn matches(&self, text: &str) -> (yes: bool)
        ensures
            yes == pattern_matches(self.path@, text@, plain_options()),
    {
        self.matches_with(
            text,
            MatchOptions {
                case_sensitive: true,
                require_literal_separator: false,
                require_literal_leading_dot: false,
            },
        )
    }

    /// Whether the pattern compiles and matches the whole of `text` under
    /// `options`.
    pub fn matches_with(&self, text: &str, options: MatchOptions) -> (yes: bool)
        ensures
            yes == pattern_matches(self.path@, text@, options),
    {
        is_match(glob_matches_with(self.path.as_str(), text, options))
    }
}

/// What a suite is.
pub struct SuiteView {
    pub group: Seq<char>,
    pub root: PathView,
    pub paths: Seq<Seq<char>>,
    pub executable: Seq<char>,
}

/// A group of files that one executable runs.
#[derive(Debug, PartialEq)]
pub struct Suite {
    /// The group this suite belongs to.
    pub group: String,
    /// The directory that the patterns are anchored at.
    pub root: PathWrapper,
    /// The patterns of the files in this suite.
    pub paths: Vec<SuitePath>,
    /// The command that runs a file of this suite.
    pub executable: String,
}

/// The pattern texts of a list of anchored patterns.
pub open spec fn pattern_texts(paths: Seq<SuitePath>) -> Seq<Seq<char>> {
    paths.map_values(|path: SuitePath| path.path@)
}

/// Whether one of `patterns` matches `text` as a suite matches.
pub open spec fn any_matches(patterns: Seq<Seq<char>>, text: Seq<char>) -> bool {
    exists|i: int|
        0 <= i < patterns.len() && pattern_matches(#[trigger] patterns[i], text, suite_options())
}

impl View for Suite {
    type V = SuiteView;

    open spec fn view(&self) -> SuiteView {
        SuiteView {
            group: self.group@,
            root: self.root@,
            paths: pattern_texts(self.paths@),
            executable: self.executable@,
        }
    }
}

impl Suite {
    /// Whether `path` matches one of the patterns of this suite.
    pub fn contains_path(&self, path: &Path) -> (yes: bool)
        ensures
            yes == any_matches(self@.paths, render(path@)),
    {
        let text = path.display();
        let options = MatchOptions {
            case_sensitive: true,
            require_literal_separator: true,
            require_literal_leading_dot: false,
        };
        let ghost patterns = pattern_texts(self.paths@);
        let mut i: usize = 0;
        while i < self.paths.len()
            invariant
                i <= self.paths.len(),
                options == suite_options(),
                text@ == render(path@),
                patterns == pattern_texts(self.paths@),
                forall|j: int| 0 <= j < i ==> !pattern_matches(#[trigger] patterns[j], text@, options),
            decreases self.paths.len() - i,
        {
            if self.paths[i].matches_with(text.as_str(), options) {
                assert(pattern_matches(patterns[i as int], text@, suite_options()));
                return true;
            }
            i += 1;
        }
        false
    }
}

} // verus!
