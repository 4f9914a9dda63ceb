//! The settings of the store, category by category.
//!
//! Each category of history may have settings of its own; one that has
//! none goes by the settings for all. A category is also what names the
//! backing file.

use crate::scope::{directory_of, flatten, join, joined, PersistenceScope};
use vstd::string::*;
use regex::Regex;
use vstd::prelude::*;

verus! {

/// The categories of history, each with a backing file of its own.
#[derive(Clone, Copy, Debug, PartialEq, Eq)]
pub enum PersistenceType {
    Command,
    Search,
    File,
    Clipboard,
    Splits,
}

/// The settings of one category, or of all.
#[derive(Clone, Debug, PartialEq, Eq)]
pub struct PersistenceConfigOption {
    /// Whether the history is kept at all.
    pub enabled: bool,
    /// How many entries a trim leaves.
    pub max_entries: usize,
    /// Where the backing file is kept.
    pub scope: PersistenceScope,
}

/// Whether the text has a match for the pattern anywhere in it, with the
/// pattern read as a regular expression of the `regex` crate; and none where
/// the pattern is no such expression.
pub uninterp spec fn regex_match(pattern: Seq<char>, text: Seq<char>) -> Option<bool>;

/// `Regex::new`, and `Regex::is_match` on what it returns: whether the
/// pattern, compiled as a regular expression, has a match anywhere in the
/// text, and none where the pattern does not compile. Claimed, not proved:
/// that the answer is the one that `regex_match` names, which says no more
/// than that the same pattern and the same text always give the same
/// answer.
#[verifier::external_body]
fn pattern_matches(pattern: &str, text: &str) -> (matched: Option<bool>)
    ensures
        matched == regex_match(pattern@, text@),
{
    match Regex::new(pattern) {
        Ok(expression) => Some(expression.is_match(text)),
        Err(_) => None,
    }
}

/// The settings of the store.
#[derive(Clone, Debug, PartialEq, Eq)]
pub struct PersistenceConfig {
    /// The settings of every category that has none of its own.
    pub all: PersistenceConfigOption,
    pub old_files: Option<PersistenceConfigOption>,
    pub commands: Option<PersistenceConfigOption>,
    pub search: Option<PersistenceConfigOption>,
    pub clipboard: Option<PersistenceConfigOption>,
    pub splits: Option<PersistenceConfigOption>,
    /// Patterns, each a regular expression: a file whose path one of them
    /// matches is left out of the file history. A pattern that is no regular
    /// expression matches nothing.
    pub files_exclusions: Vec<String>,
}

/// The settings that hold for a category: its own where it has some, else
/// those for all.
pub open spec fn resolved(
    own: Option<PersistenceConfigOption>,
    all: PersistenceConfigOption,
) -> PersistenceConfigOption {
    match own {
        Some(option) => option,
        None => all,
    }
}

/// The name of the backing file of a category.
pub open spec fn file_name_of(file: PersistenceType) -> Seq<char> {
    match file {
        PersistenceType::Command => "command_history"@,
        PersistenceType::Search => "search_history"@,
        PersistenceType::File => "file_history"@,
        PersistenceType::Clipboard => "clipboard"@,
        PersistenceType::Splits => "splits"@,
    }
}

/// The settings that hold for a category: its own where it has some, else
/// those for all.
pub fn resolve<'a>(
    own: &'a Option<PersistenceConfigOption>,
    all: &'a PersistenceConfigOption,
) -> (option: &'a PersistenceConfigOption)
    ensures
        *option == resolved(*own, *all),
{
    match own {
        Some(option) => option,
        None => all,
    }
}

/// The name of the backing file of a category.
pub fn file_name(file: PersistenceType) -> (name: &'static str)
    ensures
        name@ == file_name_of(file),
{
    match file {
        PersistenceType::Command => "command_history",
        PersistenceType::Search => "search_history",
        PersistenceType::File => "file_history",
        PersistenceType::Clipboard => "clipboard",
        PersistenceType::Splits => "splits",
    }
}

impl PersistenceConfig {
    /// The settings that the category has of its own, if any.
    pub open spec fn own_option(&self, file: PersistenceType) -> Option<PersistenceConfigOption> {
        match file {
            PersistenceType::Command => self.commands,
            PersistenceType::Search => self.search,
            PersistenceType::Clipboard => self.clipboard,
            PersistenceType::File => self.old_files,
            PersistenceType::Splits => self.splits,
        }
    }

    /// The settings that hold for the category.
    pub open spec fn effective(&self, file: PersistenceType) -> PersistenceConfigOption {
        resolved(self.own_option(file), self.all)
    }

    /// The path of the backing file of the category.
    pub open spec fn file_path_of(
        &self,
        file: PersistenceType,
        state_dir: Seq<char>,
        workspace: Seq<char>,
    ) -> Seq<char> {
        joined(directory_of(self.effective(file).scope, state_dir, workspace), file_name_of(file))
    }

    /// Some exclusion matches the path.
    pub open spec fn excludes(&self, path: Seq<char>) -> bool {
        exists|i: int|
            0 <= i < self.files_exclusions@.len() && regex_match(
                #[trigger] self.files_exclusions@[i]@,
                path,
            ) == Some(true)
    }

    /// The settings that the category has of its own, if any.
    pub fn get_option(&self, file: PersistenceType) -> (option: &Option<PersistenceConfigOption>)
        ensures
            *option == self.own_option(file),
    {
        match file {
            PersistenceType::Command => &self.commands,
            PersistenceType::Search => &self.search,
            PersistenceType::Clipboard => &self.clipboard,
            PersistenceType::File => &self.old_files,
            PersistenceType::Splits => &self.splits,
        }
    }

    /// Whether the history of the category is kept.
    pub fn enabled(&self, file: PersistenceType) -> (enabled: bool)
        ensures
            enabled == self.effective(file).enabled,
    {
        resolve(self.get_option(file), &self.all).enabled
    }

    /// How many entries a trim leaves in the category.
    pub fn max_entries(&self, file: PersistenceType) -> (max_entries: usize)
        ensures
            max_entries == self.effective(file).max_entries,
    {
        resolve(self.get_option(file), &self.all).max_entries
    }

    /// Where the backing file of the category is kept.
    pub fn scope(&self, file: PersistenceType) -> (scope: &PersistenceScope)
        ensures
            *scope == self.effective(file).scope,
    {
        &resolve(self.get_option(file), &self.all).scope
    }

    /// The directory that holds the backing files of a scope. `state_dir` is
    /// the directory for all state; `workspace` is the root of the current
    /// workspace, which only the per-workspace scope looks at.
    pub fn persistence_dir(scope: &PersistenceScope, state_dir: &str, workspace: &str) -> (dir:
        String)
        ensures
            dir@ == directory_of(*scope, state_dir@, workspace@),
    {
        match scope {
            PersistenceScope::AllInOne => String::from_str(state_dir),
            PersistenceScope::PerWorkspace => {
                let name = flatten(workspace);
                join(state_dir, name.as_str())
            },
            PersistenceScope::Dir(dir) => dir.clone(),
        }
    }

    /// The path of the backing file of the category: the name of its file in
    /// the directory of its scope. `state_dir` is the directory for all
    /// state; `workspace` is the root of the current workspace, which only
    /// the per-workspace scope looks at.
    pub fn default_file_path(
        &self,
        file: PersistenceType,
        state_dir: &str,
        workspace: &str,
    ) -> (path: String)
        ensures
            path@ == self.file_path_of(file, state_dir@, workspace@),
    {
        let dir = Self::persistence_dir(self.scope(file), state_dir, workspace);
        join(dir.as_str(), file_name(file))
    }

    /// Whether the file with that path is left out of the file history:
    /// whether some exclusion matches the path.
    pub fn exclude(&self, path: &str) -> (excluded: bool)
        ensures
            excluded == self.excludes(path@),
    {
        let mut i: usize = 0;
        while i < self.files_exclusions.len()
            invariant
                i <= self.files_exclusions@.len(),
                forall|j: int|
                    0 <= j < i ==> regex_match(#[trigger] self.files_exclusions@[j]@, path@)
                        != Some(true),
            decreases self.files_exclusions@.len() - i,
        {
            match pattern_matches(self.files_exclusions[i].as_str(), path) {
                Some(true) => {
                    return true;
                },
                _ => {},
            }
            i += 1;
        }
        false
    }
}

/// A path ends in the name that was joined to it last.
proof fn lemma_joined_ends_in_name(base: Seq<char>, name: Seq<char>, k: int)
    requires
        0 <= k < name.len(),
    ensures
        joined(base, name).len() >= name.len(),
        joined(base, name)[joined(base, name).len() - 1 - k] == name[name.len() - 1 - k],
{
}

/// No two categories share a backing file, whatever their scopes are: the
/// paths of the files of two categories differ.
pub proof fn law_categories_have_files_of_their_own(
    config: PersistenceConfig,
    one: PersistenceType,
    other: PersistenceType,
    state_dir: Seq<char>,
    workspace: Seq<char>,
)
    requires
        one != other,
    ensures
        file_name_of(one) != file_name_of(other),
        config.file_path_of(one, state_dir, workspace) != config.file_path_of(
            other,
            state_dir,
            workspace,
        ),
{
    reveal_strlit("command_history");
    reveal_strlit("search_history");
    reveal_strlit("file_history");
    reveal_strlit("clipboard");
    reveal_strlit("splits");
    let a = directory_of(config.effective(one).scope, state_dir, workspace);
    let b = directory_of(config.effective(other).scope, state_dir, workspace);
    // The names differ in their last character, or in the ninth from the
    // end, and so do the paths.
    lemma_joined_ends_in_name(a, file_name_of(one), 0);
    lemma_joined_ends_in_name(b, file_name_of(other), 0);
    if file_name_of(one).len() >= 12 && file_name_of(other).len() >= 12 {
        lemma_joined_ends_in_name(a, file_name_of(one), 8);
        lemma_joined_ends_in_name(b, file_name_of(other), 8);
    }
}

} // verus!
