//! Relative paths: names joined by `/`.

use vstd::prelude::*;
use vstd::string::*;

verus! {

/// The separator between the names of a path.
pub open spec fn separator() -> char {
    '/'
}

/// The path of the child `name` below the directory at `prefix`. The root
/// directory has the empty path, and gives no separator.
pub open spec fn joined(prefix: Seq<char>, name: Seq<char>) -> Seq<char> {
    if prefix.len() == 0 {
        name
    } else {
        prefix.push(separator()) + name
    }
}

/// Where the last separator of `path` stands, or `None` where it has none.
pub open spec fn last_separator(path: Seq<char>) -> Option<int>
    decreases path.len(),
{
    if path.len() == 0 {
        None
    } else if path.last() == separator() {
        Some(path.len() - 1)
    } else {
        last_separator(path.drop_last())
    }
}

/// The directory part of `path`: what stands before its last separator, or
/// nothing where it has none.
pub open spec fn directory_of(path: Seq<char>) -> Seq<char> {
    match last_separator(path) {
        Some(at) => path.take(at),
        None => Seq::empty(),
    }
}

/// The path of `path` below the directory `destination`: the two with one
/// separator between them, which an empty destination, or one that ends in a
/// separator, does not need. The names in `path` are taken as they are; none
/// is resolved or refused.
pub open spec fn target(destination: Seq<char>, path: Seq<char>) -> Seq<char> {
    if destination.len() == 0 || destination.last() == separator() {
        destination + path
    } else {
        destination.push(separator()) + path
    }
}

/// Joins a directory path and a child name.
pub fn join_path(prefix: &str, name: &str) -> (path: String)
    ensures
        path@ == joined(prefix@, name@),
{
    if prefix.is_empty() {
        String::from_str(name)
    } else {
        let mut path = String::from_str(prefix);
        proof {
            reveal_strlit("/");
        }
        path.append("/");
        path.append(name);
        path
    }
}

/// The path of `path` below the directory `destination`.
pub fn target_path(destination: &str, path: &str) -> (file: String)
    ensures
        file@ == target(destination@, path@),
{
    let length = destination.unicode_len();
    let mut file = String::from_str(destination);
    if length > 0 && destination.get_char(length - 1) != '/' {
        proof {
            reveal_strlit("/");
        }
        file.append("/");
    }
    file.append(path);
    file
}

/// The directory part of `path`.
pub fn parent_directory(path: &str) -> (directory: String)
    ensures
        directory@ == directory_of(path@),
{
    let length = path.unicode_len();
    let mut at: usize = length;
    assert(path@.take(at as int) == path@);
    while at > 0 && path.get_char(at - 1) != '/'
        invariant
            at <= length == path@.len(),
            last_separator(path@) == last_separator(path@.take(at as int)),
        decreases at,
    {
        proof {
            assert(path@.take(at as int).drop_last() == path@.take(at as int - 1));
        }
        at = at - 1;
    }
    if at == 0 {
        String::new()
    } else {
        String::from_str(path.substring_char(0, at - 1))
    }
}

} // verus!
