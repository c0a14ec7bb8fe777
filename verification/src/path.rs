//! Paths as strings, with `/` between the components, and the rules that
//! decide which entries of a directory are indexed.

use crate::text::{
    ascii_lowercase, chars_of, count_leading_whitespace, last_index_of, rfind, trim_start,
};
use vstd::prelude::*;
use vstd::string::StrSliceExecFns;
use vstd::string::StringExecFns;

verus! {

/// The character that separates the components of a path.
pub const SEPARATOR: char = '/';

/// The final component of `path`: what follows its last separator, or all of
/// it when it has none.
pub open spec fn file_name_of(path: Seq<char>) -> Seq<char> {
    match last_index_of(path, SEPARATOR) {
        Some(i) => path.skip(i + 1),
        None => path,
    }
}

/// The extension of a file name: what follows its last dot. A name without a
/// dot has none, nor has one whose only dot is its first character, nor `..`.
pub open spec fn extension_of(name: Seq<char>) -> Option<Seq<char>> {
    if name == seq!['.', '.'] {
        None
    } else {
        match last_index_of(name, '.') {
            Some(i) => if i == 0 {
                None
            } else {
                Some(name.skip(i + 1))
            },
            None => None,
        }
    }
}

/// `dir` extended by `name`. A name that starts at the root replaces `dir`;
/// otherwise the two are put together, with a separator between them unless
/// `dir` is empty or already ends with one.
pub open spec fn join_of(dir: Seq<char>, name: Seq<char>) -> Seq<char> {
    if name.len() > 0 && name[0] == SEPARATOR {
        name
    } else if dir.len() == 0 || dir.last() == SEPARATOR {
        dir + name
    } else {
        dir + seq![SEPARATOR] + name
    }
}

/// The extension that marks an encrypted sidecar file.
pub open spec fn sidecar_extension() -> Seq<char> {
    seq!['e', 'n', 'c']
}

/// The name of the folder-settings file that macOS leaves in directories.
pub open spec fn ds_store() -> Seq<char> {
    seq!['.', 'D', 'S', '_', 'S', 't', 'o', 'r', 'e']
}

/// Whether a file of this name is a hidden or system artifact: an encrypted
/// sidecar, a folder-settings file, or a name that, after any leading white
/// space, begins with `._`.
pub open spec fn is_system_name(name: Seq<char>) -> bool {
    let trimmed = trim_start(name);
    ||| extension_of(name) == Some(sidecar_extension())
    ||| name == ds_store()
    ||| (trimmed.len() >= 2 && trimmed[0] == '.' && trimmed[1] == '_')
}

/// Whether the entry at `path` is a hidden or system artifact. A directory
/// never is.
pub open spec fn is_system_path(path: Seq<char>, is_dir: bool) -> bool {
    !is_dir && is_system_name(file_name_of(path))
}

/// Whether the entry at `path` is indexed: a file, not a directory, that has
/// an extension and is no hidden or system artifact.
pub open spec fn indexable(path: Seq<char>, is_dir: bool) -> bool {
    &&& !is_dir
    &&& !is_system_name(file_name_of(path))
    &&& extension_of(file_name_of(path)) is Some
}

/// The type of an indexed file: its extension in lower case.
pub open spec fn file_type_of(name: Seq<char>) -> Seq<char>
    recommends
        extension_of(name) is Some,
{
    ascii_lowercase(extension_of(name).unwrap())
}

/// `str::to_ascii_lowercase` returns a copy of the string in which the ASCII
/// letters `A` to `Z` are replaced by `a` to `z` and every other character is
/// kept.
pub assume_specification[ str::to_ascii_lowercase ](s: &str) -> (lowered: String)
    ensures
        lowered@ == ascii_lowercase(s@),
;

/// Returns the final component of `path`.
pub fn file_name(path: &str) -> (name: String)
    ensures
        name@ == file_name_of(path@),
{
    let chars = chars_of(path);
    match rfind(&chars, SEPARATOR) {
        Some(i) => path.substring_char(i + 1, chars.len()).to_owned(),
        None => path.to_owned(),
    }
}

/// Returns the extension of the file name `name`, if it has one.
pub fn extension(name: &str) -> (ext: Option<String>)
    ensures
        match ext {
            Some(e) => extension_of(name@) == Some(e@),
            None => extension_of(name@) is None,
        },
{
    let chars = chars_of(name);
    if chars.len() == 2 && chars[0] == '.' && chars[1] == '.' {
        proof {
            assert(name@ =~= seq!['.', '.']);
        }
        return None;
    }
    match rfind(&chars, '.') {
        Some(i) => {
            if i == 0 {
                None
            } else {
                Some(name.substring_char(i + 1, chars.len()).to_owned())
            }
        },
        None => None,
    }
}

/// Extends `dir` by `name`.
pub fn join(dir: &str, name: &str) -> (path: String)
    ensures
        path@ == join_of(dir@, name@),
{
    let dir_chars = chars_of(dir);
    let name_chars = chars_of(name);
    if name_chars.len() > 0 && name_chars[0] == SEPARATOR {
        return name.to_owned();
    }
    let mut path = dir.to_owned();
    if dir_chars.len() > 0 && dir_chars[dir_chars.len() - 1] != SEPARATOR {
        proof {
            reveal_strlit("/");
            assert("/"@ =~= seq![SEPARATOR]);
        }
        path.append("/");
    }
    path.append(name);
    path
}

/// Tells whether a file of this name is a hidden or system artifact.
pub fn is_system_file_name(name: &str) -> (b: bool)
    ensures
        b == is_system_name(name@),
{
    let chars = chars_of(name);
    let sidecar = match extension(name) {
        Some(ext) => {
            let e = chars_of(ext.as_str());
            e.len() == 3 && e[0] == 'e' && e[1] == 'n' && e[2] == 'c'
        },
        None => false,
    };
    proof {
        if extension_of(name@) is Some {
            let e = extension_of(name@).unwrap();
            assert(sidecar <==> e =~= sidecar_extension());
        }
    }
    if sidecar {
        return true;
    }
    let settings = chars.len() == 9 && chars[0] == '.' && chars[1] == 'D' && chars[2] == 'S'
        && chars[3] == '_' && chars[4] == 'S' && chars[5] == 't' && chars[6] == 'o' && chars[7]
        == 'r' && chars[8] == 'e';
    proof {
        assert(settings <==> name@ =~= ds_store());
    }
    if settings {
        return true;
    }
    let start = count_leading_whitespace(&chars);
    chars.len() - start >= 2 && chars[start] == '.' && chars[start + 1] == '_'
}

/// Tells whether the entry at `path` is a hidden or system artifact, given
/// whether it is a directory.
pub fn is_system_file(path: &str, is_dir: bool) -> (b: bool)
    ensures
        b == is_system_path(path@, is_dir),
{
    if is_dir {
        return false;
    }
    let name = file_name(path);
    is_system_file_name(name.as_str())
}

/// Decides whether the entry at `path` is indexed, given whether it is a
/// directory.
pub fn is_indexable(path: &str, is_dir: bool) -> (b: bool)
    ensures
        b == indexable(path@, is_dir),
{
    if is_dir {
        return false;
    }
    let name = file_name(path);
    if is_system_file_name(name.as_str()) {
        return false;
    }
    extension(name.as_str()).is_some()
}

/// Returns the type of the file named `name`: its extension in lower case, or
/// nothing when the name has no extension.
pub fn file_type(name: &str) -> (ty: Option<String>)
    ensures
        match ty {
            Some(t) => extension_of(name@) is Some && t@ == file_type_of(name@),
            None => extension_of(name@) is None,
        },
{
    match extension(name) {
        Some(ext) => Some(ext.as_str().to_ascii_lowercase()),
        None => None,
    }
}

} // verus!
