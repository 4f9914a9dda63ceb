//! Where the backing files are kept.
//!
//! A scope names a directory: one directory for everything, one directory
//! for each workspace, or a directory given outright. The directory that
//! holds all state and the root of the current workspace are handed in by
//! the caller; nothing here looks at the machine it runs on.

use vstd::prelude::*;
use vstd::string::*;

verus! {

/// The character that parts the components of a path.
pub const SEPARATOR: char = '/';

/// The character that stands for a separator in the name of a workspace's
/// directory.
pub const FLAT_SEPARATOR: char = '%';

/// Which directory holds the backing files.
#[derive(Clone, Debug, PartialEq, Eq)]
pub enum PersistenceScope {
    /// One directory for all state.
    AllInOne,
    /// A directory of its own for each workspace, below the one for all
    /// state.
    PerWorkspace,
    /// This directory.
    Dir(String),
}

/// `String::push`: the string afterwards is the string before with `ch`
/// added at its end. Claimed, not proved.
pub assume_specification[ std::string::String::push ](s: &mut String, ch: char)
    ensures
        final(s)@ == old(s)@.push(ch),
;

/// A path with one more component: `name` is put behind `base`, with a
/// separator between them unless `base` is empty or ends in one.
pub open spec fn joined(base: Seq<char>, name: Seq<char>) -> Seq<char> {
    if base.len() == 0 || base.last() == SEPARATOR {
        base + name
    } else {
        base.push(SEPARATOR) + name
    }
}

/// A character of a workspace root as it is written in a directory's name.
pub open spec fn flat_char(c: char) -> char {
    if c == SEPARATOR {
        FLAT_SEPARATOR
    } else {
        c
    }
}

/// The root of a workspace begins with a separator, as an absolute path
/// does.
pub open spec fn is_absolute(root: Seq<char>) -> bool {
    root.len() > 0 && root[0] == SEPARATOR
}

/// The name of the directory of the workspace with that root: the root
/// without the separator it begins with, and with each other separator
/// replaced.
pub open spec fn flattened(root: Seq<char>) -> Seq<char> {
    let rest = if is_absolute(root) {
        root.drop_first()
    } else {
        root
    };
    Seq::new(rest.len(), |i: int| flat_char(rest[i]))
}

/// The directory that a scope names.
pub open spec fn directory_of(
    scope: PersistenceScope,
    state_dir: Seq<char>,
    workspace: Seq<char>,
) -> Seq<char> {
    match scope {
        PersistenceScope::AllInOne => state_dir,
        PersistenceScope::PerWorkspace => joined(state_dir, flattened(workspace)),
        PersistenceScope::Dir(dir) => dir@,
    }
}

/// Puts `name` behind `base` as one more component of the path.
pub fn join(base: &str, name: &str) -> (path: String)
    ensures
        path@ == joined(base@, name@),
{
    let mut path = String::from_str(base);
    let len = base.unicode_len();
    if len > 0 && base.get_char(len - 1) != SEPARATOR {
        path.push(SEPARATOR);
    }
    path.append(name);
    path
}

/// The name of the directory that belongs to the workspace with that root.
pub fn flatten(root: &str) -> (name: String)
    ensures
        name@ == flattened(root@),
{
    let mut name = String::new();
    let mut first = true;
    for c in it: root.chars()
        invariant
            first <==> it.index() == 0,
            it.seq() == root@,
            name@ == flattened(root@.take(it.index() as int)),
    {
        if !(first && c == SEPARATOR) {
            name.push(if c == SEPARATOR { FLAT_SEPARATOR } else { c });
        }
        first = false;
    }
    name
}

} // verus!
