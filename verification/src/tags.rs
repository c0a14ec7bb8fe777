//! Tags: the names of the directories that lie between a scan root and a file.

use crate::metadata::strings;
use crate::path::{file_name_of, join_of, SEPARATOR};
use crate::text::{chars_of, last_index_of, lemma_last_index_of, lemma_last_index_of_is,
    lemma_last_index_of_none};
use vstd::prelude::*;
use vstd::string::StrSliceExecFns;

verus! {

/// The components of a path: the pieces between its separators, in order.
/// A path without a separator is a single component.
pub open spec fn components(path: Seq<char>) -> Seq<Seq<char>>
    decreases path.len(),
{
    match last_index_of(path, SEPARATOR) {
        Some(i) => {
            proof {
                lemma_last_index_of(path, SEPARATOR);
            }
            components(path.take(i)).push(path.skip(i + 1))
        },
        None => seq![path],
    }
}

/// What is left of `path` below `root`: the part after `root` and after the
/// separator that follows it. `None` when `path` does not lie below `root`.
pub open spec fn relative_to(root: Seq<char>, path: Seq<char>) -> Option<Seq<char>> {
    if !root.is_prefix_of(path) {
        None
    } else {
        let rest = path.skip(root.len() as int);
        if root.len() == 0 || root.last() == SEPARATOR {
            Some(rest)
        } else if rest.len() > 0 && rest[0] == SEPARATOR {
            Some(rest.skip(1))
        } else {
            None
        }
    }
}

/// The tags of the file at `path` under the scan root `root`: the components
/// strictly between the root and the file's name, from the root down. A file
/// directly under the root has none, and neither has a path that does not lie
/// below the root.
pub open spec fn tags_between(root: Seq<char>, path: Seq<char>) -> Seq<Seq<char>> {
    match relative_to(root, path) {
        Some(rest) => components(rest).drop_last(),
        None => Seq::empty(),
    }
}

/// A path always has at least one component.
pub proof fn lemma_components_nonempty(path: Seq<char>)
    ensures
        components(path).len() >= 1,
    decreases path.len(),
{
    match last_index_of(path, SEPARATOR) {
        Some(i) => {
            lemma_last_index_of(path, SEPARATOR);
            lemma_components_nonempty(path.take(i));
        },
        None => {},
    }
}

/// Appending a character to a path either opens a new, empty component (a
/// separator) or extends the last component (any other character).
pub proof fn lemma_components_push(path: Seq<char>, c: char)
    ensures
        components(path).len() >= 1,
        c == SEPARATOR ==> components(path.push(c)) == components(path).push(Seq::empty()),
        c != SEPARATOR ==> components(path.push(c)) == components(path).drop_last().push(
            components(path).last().push(c),
        ),
{
    lemma_components_nonempty(path);
    let longer = path.push(c);
    if c == SEPARATOR {
        lemma_last_index_of_is(longer, SEPARATOR, path.len() as int);
        assert(longer.take(path.len() as int) == path);
        assert(longer.skip(path.len() as int + 1) == Seq::<char>::empty());
    } else {
        lemma_last_index_of(path, SEPARATOR);
        match last_index_of(path, SEPARATOR) {
            Some(i) => {
                lemma_last_index_of_is(longer, SEPARATOR, i);
                assert(longer.take(i) == path.take(i));
                assert(longer.skip(i + 1) == path.skip(i + 1).push(c));
                assert(components(path).drop_last() == components(path.take(i)));
            },
            None => {
                lemma_last_index_of_none(longer, SEPARATOR);
                assert(components(path).drop_last() == Seq::<Seq<char>>::empty());
                assert(components(longer) == seq![longer]);
                assert(Seq::<Seq<char>>::empty().push(path.push(c)) == seq![longer]);
            },
        }
    }
}

/// Whether `name` can be the name of a directory entry: it is not empty and
/// holds no separator.
pub open spec fn proper_name(name: Seq<char>) -> bool {
    name.len() > 0 && forall|i: int| 0 <= i < name.len() ==> name[i] != SEPARATOR
}

/// Whether all of `names` can be names of directory entries.
pub open spec fn proper_names(names: Seq<Seq<char>>) -> bool {
    forall|i: int| 0 <= i < names.len() ==> proper_name(#[trigger] names[i])
}

/// The path reached from `root` by descending through `names`, one after the
/// other.
pub open spec fn descend(root: Seq<char>, names: Seq<Seq<char>>) -> Seq<char>
    decreases names.len(),
{
    if names.len() == 0 {
        root
    } else {
        join_of(descend(root, names.drop_last()), names.last())
    }
}

/// `names` written as a path: one after the other, with a separator between
/// each two.
pub open spec fn written(names: Seq<Seq<char>>) -> Seq<char>
    decreases names.len(),
{
    if names.len() == 0 {
        Seq::empty()
    } else if names.len() == 1 {
        names[0]
    } else {
        written(names.drop_last()) + seq![SEPARATOR] + names.last()
    }
}

/// `root`, closed by a separator unless it is empty or ends with one: what a
/// path below `root` begins with.
pub open spec fn opening(root: Seq<char>) -> Seq<char> {
    if root.len() == 0 || root.last() == SEPARATOR {
        root
    } else {
        root + seq![SEPARATOR]
    }
}

/// The name of an entry is the final component of its path.
pub proof fn lemma_file_name_of_join(dir: Seq<char>, name: Seq<char>)
    requires
        proper_name(name),
    ensures
        file_name_of(join_of(dir, name)) == name,
{
    let path = join_of(dir, name);
    if dir.len() == 0 {
        assert(path == name);
        lemma_last_index_of_none(path, SEPARATOR);
    } else if dir.last() == SEPARATOR {
        lemma_last_index_of_is(path, SEPARATOR, dir.len() - 1);
        assert(path.skip(dir.len() as int) == name);
    } else {
        lemma_last_index_of_is(path, SEPARATOR, dir.len() as int);
        assert(path.skip(dir.len() as int + 1) == name);
    }
}

/// A path extended by a separator and a proper name has that name as one
/// more component.
pub proof fn lemma_components_extend(path: Seq<char>, name: Seq<char>)
    requires
        proper_name(name),
    ensures
        components(path + seq![SEPARATOR] + name) == components(path).push(name),
        components(name) == seq![name],
{
    let longer = path + seq![SEPARATOR] + name;
    lemma_last_index_of_is(longer, SEPARATOR, path.len() as int);
    assert(longer.take(path.len() as int) == path);
    assert(longer.skip(path.len() as int + 1) == name);
    lemma_last_index_of_none(name, SEPARATOR);
}

/// Proper names written as a path are its components.
pub proof fn lemma_components_written(names: Seq<Seq<char>>)
    requires
        names.len() > 0,
        proper_names(names),
    ensures
        components(written(names)) == names,
    decreases names.len(),
{
    if names.len() == 1 {
        lemma_components_extend(Seq::empty(), names[0]);
        assert(seq![names[0]] == names);
    } else {
        let init = names.drop_last();
        assert forall|i: int| 0 <= i < init.len() implies proper_name(#[trigger] init[i]) by {
            assert(init[i] == names[i]);
        }
        lemma_components_written(init);
        lemma_components_extend(written(init), names.last());
        assert(init.push(names.last()) == names);
    }
}

/// Descending from `root` through proper names gives the opening of `root`
/// followed by the names written as a path.
pub proof fn lemma_descend_written(root: Seq<char>, names: Seq<Seq<char>>)
    requires
        names.len() > 0,
        proper_names(names),
    ensures
        descend(root, names) == opening(root) + written(names),
        descend(root, names).len() > 0,
        descend(root, names).last() != SEPARATOR,
    decreases names.len(),
{
    let name = names.last();
    assert(proper_name(name));
    if names.len() == 1 {
        assert(names.drop_last().len() == 0);
        assert(descend(root, names) == join_of(root, name));
        assert(written(names) == name);
        assert(join_of(root, name) == opening(root) + name);
        assert((opening(root) + name).last() == name.last());
    } else {
        let init = names.drop_last();
        assert forall|i: int| 0 <= i < init.len() implies proper_name(#[trigger] init[i]) by {
            assert(init[i] == names[i]);
        }
        lemma_descend_written(root, init);
        let above = descend(root, init);
        assert(join_of(above, name) == above + seq![SEPARATOR] + name);
        assert(above + seq![SEPARATOR] + name == opening(root) + (written(init) + seq![SEPARATOR]
            + name));
        assert((above + seq![SEPARATOR] + name).last() == name.last());
    }
}

/// What lies below `root` after its opening is what is left of the path
/// relative to `root`.
pub proof fn lemma_relative_to_opening(root: Seq<char>, rest: Seq<char>)
    ensures
        relative_to(root, opening(root) + rest) == Some(rest),
{
    let path = opening(root) + rest;
    assert(root.is_prefix_of(path)) by {
        assert(path.subrange(0, root.len() as int) =~= root);
    }
    if root.len() == 0 || root.last() == SEPARATOR {
        assert(path.skip(root.len() as int) == rest);
    } else {
        assert(path.skip(root.len() as int) == seq![SEPARATOR] + rest);
        assert((seq![SEPARATOR] + rest).skip(1) == rest);
    }
}

/// The tags of a path reached from `root` by descending through proper names
/// are those names but the last, which is the file's own.
pub proof fn lemma_tags_of_descend(root: Seq<char>, names: Seq<Seq<char>>)
    requires
        names.len() > 0,
        proper_names(names),
    ensures
        tags_between(root, descend(root, names)) == names.drop_last(),
{
    lemma_descend_written(root, names);
    lemma_relative_to_opening(root, written(names));
    lemma_components_written(names);
}

/// Derives the tags of the file at `path` under the scan root `root`.
pub fn derive_tags(root: &str, path: &str) -> (tags: Vec<String>)
    ensures
        strings(tags@) == tags_between(root@, path@),
{
    let root_chars = chars_of(root);
    let path_chars = chars_of(path);
    let mut tags: Vec<String> = Vec::new();
    if root_chars.len() > path_chars.len() {
        return tags;
    }
    let mut k: usize = 0;
    while k < root_chars.len()
        invariant
            k <= root_chars.len() <= path_chars.len(),
            root_chars@ == root@,
            path_chars@ == path@,
            tags@.len() == 0,
            forall|j: int| 0 <= j < k ==> root_chars@[j] == path_chars@[j],
        decreases root_chars.len() - k,
    {
        if root_chars[k] != path_chars[k] {
            proof {
                assert(path@.subrange(0, root@.len() as int)[k as int] != root@[k as int]);
            }
            return tags;
        }
        k += 1;
    }
    assert(root@.is_prefix_of(path@)) by {
        assert(root@ =~= path@.subrange(0, root@.len() as int));
    }
    let mut start: usize = root_chars.len();
    if root_chars.len() > 0 && root_chars[root_chars.len() - 1] != SEPARATOR {
        if start < path_chars.len() && path_chars[start] == SEPARATOR {
            proof {
                assert(path@.skip(start as int).skip(1) == path@.skip(start + 1));
            }
            start += 1;
        } else {
            return tags;
        }
    }
    let ghost rest = path@.skip(start as int);
    assert(relative_to(root@, path@) == Some(rest));
    let mut begin: usize = start;
    let mut i: usize = start;
    proof {
        assert(rest.take(0) == Seq::<char>::empty());
        lemma_last_index_of_none(Seq::<char>::empty(), SEPARATOR);
        assert(rest.subrange(0, 0) == Seq::<char>::empty());
        assert(strings(tags@) == Seq::<Seq<char>>::empty());
        assert(Seq::<Seq<char>>::empty().push(Seq::<char>::empty()) == seq![Seq::<char>::empty()]);
    }
    while i < path_chars.len()
        invariant
            start <= begin <= i <= path_chars.len(),
            path_chars@ == path@,
            rest == path@.skip(start as int),
            components(rest.take(i - start)) == strings(tags@).push(
                rest.subrange(begin - start, i - start),
            ),
        decreases path_chars.len() - i,
    {
        proof {
            lemma_components_push(rest.take(i - start), path_chars@[i as int]);
            assert(rest.take(i - start).push(path_chars@[i as int]) == rest.take(i + 1 - start));
        }
        if path_chars[i] == SEPARATOR {
            let tag = path.substring_char(begin, i).to_owned();
            proof {
                assert(tag@ == rest.subrange(begin - start, i - start));
                assert(strings(tags@.push(tag)) == strings(tags@).push(tag@));
                assert(rest.subrange(i + 1 - start, i + 1 - start) == Seq::<char>::empty());
            }
            tags.push(tag);
            begin = i + 1;
        } else {
            proof {
                assert(rest.subrange(begin - start, i - start).push(path_chars@[i as int])
                    == rest.subrange(begin - start, i + 1 - start));
                assert(strings(tags@).push(rest.subrange(begin - start, i - start)).drop_last()
                    == strings(tags@));
            }
        }
        i += 1;
    }
    proof {
        assert(rest.take(i - start) == rest);
        assert(strings(tags@).push(rest.subrange(begin - start, i - start)).drop_last()
            == strings(tags@));
    }
    tags
}

} // verus!
