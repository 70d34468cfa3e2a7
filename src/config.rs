//! The configuration of a synchronisation: replica roots, ignore rules and
//! whether file contents are compared.
use vstd::prelude::*;
use crate::paths::{TreePath, path_starts_with, path_text};

verus! {

/// regex's compiled expression, carried through unopened.
#[verifier::external_type_specification]
#[verifier::external_body]
pub struct ExRegex(regex::Regex);

/// regex's error for a pattern that does not compile, handed to the caller.
#[verifier::external_type_specification]
#[verifier::external_body]
pub struct ExRegexError(regex::Error);

/// Whether the regular expression `pattern` matches somewhere in `text`.
pub uninterp spec fn regex_matches(pattern: Seq<char>, text: Seq<char>) -> bool;

/// Relies on regex::Regex::new: compiles a pattern, or says why it cannot.
#[verifier::external_body]
fn compile_regex(source: &str) -> (r: Result<regex::Regex, regex::Error>) {
    regex::Regex::new(source)
}

/// Relies on regex::Regex::is_match: true iff the expression matches
/// somewhere in `text`. The expression of an `IgnorePattern` was compiled from
/// its source text by `IgnorePattern::new`, its only constructor, so the
/// answer depends on that text and on `text` alone.
#[verifier::external_body]
fn pattern_is_match(p: &IgnorePattern, text: &str) -> (r: bool)
    ensures
        r == regex_matches(p.source_text(), text@),
{
    p.compiled.is_match(text)
}

/// A regular expression of the ignore rules, kept with its source text.
#[derive(Debug)]
pub struct IgnorePattern {
    source: String,
    compiled: regex::Regex,
}

impl IgnorePattern {
    pub closed spec fn source_text(&self) -> Seq<char> {
        self.source@
    }

    /// Compiles `source`; an invalid expression gives the regex error.
    pub fn new(source: &str) -> (r: Result<IgnorePattern, regex::Error>)
        ensures
            r is Ok ==> r->Ok_0.source_text() == source@,
    {
        match compile_regex(source) {
            Ok(compiled) => Ok(IgnorePattern { source: source.to_owned(), compiled }),
            Err(e) => Err(e),
        }
    }

    pub fn source(&self) -> (r: &str)
        ensures
            r@ == self.source_text(),
    {
        self.source.as_str()
    }

    /// True iff the expression matches somewhere in `text`.
    pub fn is_match(&self, text: &str) -> (r: bool)
        ensures
            r == regex_matches(self.source_text(), text@),
    {
        pattern_is_match(self, text)
    }
}

/// Which paths are left out of detection: those inside one of `paths`
/// (compared by whole components) and those whose text one of `regexes`
/// matches.
#[derive(Debug)]
pub struct Ignore {
    pub regexes: Vec<IgnorePattern>,
    pub paths: Vec<TreePath>,
}

/// The path with components `parts` (absolute when `absolute`) falls under
/// the ignore rules.
pub open spec fn ignored_by(ignore: &Ignore, absolute: bool, parts: Seq<Seq<char>>) -> bool {
    ||| exists|i: int|
        0 <= i < ignore.paths@.len() && path_starts_with(
            absolute,
            parts,
            ignore.paths@[i].absolute,
            ignore.paths@[i].parts(),
        )
    ||| exists|j: int|
        0 <= j < ignore.regexes@.len() && regex_matches(
            ignore.regexes@[j].source_text(),
            path_text(absolute, parts),
        )
}

impl Ignore {
    /// Rules that ignore nothing.
    pub fn nothing() -> (r: Ignore)
        ensures
            r.regexes@.len() == 0,
            r.paths@.len() == 0,
            forall|a: bool, p: Seq<Seq<char>>| !ignored_by(&r, a, p),
    {
        Ignore { regexes: Vec::new(), paths: Vec::new() }
    }
}

/// The configuration of one synchronisation.
#[derive(Debug)]
pub struct SyncInfo {
    /// The replica roots, in replica order.
    pub roots: Vec<String>,
    pub ignore: Ignore,
    /// Whether files of equal size are also compared byte by byte.
    pub compare_file_contents: bool,
}

impl SyncInfo {
    /// A configuration over `roots` that ignores nothing and compares
    /// contents.
    pub fn new(roots: Vec<String>) -> (r: SyncInfo)
        ensures
            r.roots@ == roots@,
            r.ignore.regexes@.len() == 0,
            r.ignore.paths@.len() == 0,
            r.compare_file_contents,
    {
        SyncInfo { roots, ignore: Ignore::nothing(), compare_file_contents: true }
    }
}

} // verus!
