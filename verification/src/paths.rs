//! Paths as text. A path is a sequence of characters in which `/` separates
//! the components; what follows the last separator names the file.

use vstd::prelude::*;
use crate::text::{chars_of, push_char};

verus! {

/// The character that separates the components of a path.
pub open spec fn is_separator(c: char) -> bool {
    c == '/'
}

/// The position of the last separator in `path`, or -1 if it has none.
pub open spec fn last_separator(path: Seq<char>) -> int
    decreases path.len(),
{
    if path.len() == 0 {
        -1
    } else if is_separator(path.last()) {
        path.len() - 1
    } else {
        last_separator(path.drop_last())
    }
}

/// The final component of `path`: everything after its last separator, the
/// whole of it where there is none. Empty when `path` ends in a separator.
pub open spec fn name_of(path: Seq<char>) -> Seq<char> {
    path.skip(last_separator(path) + 1)
}

/// The folder that `path` lies in: everything before its last separator.
/// A path without separator lies in the empty folder, and what lies directly
/// under the root has the root `/` as its folder.
pub open spec fn parent_of(path: Seq<char>) -> Seq<char> {
    let k = last_separator(path);
    if k < 0 {
        Seq::empty()
    } else if k == 0 {
        seq!['/']
    } else {
        path.take(k)
    }
}

/// `name` placed in the folder `base`. An absolute `name` stands for itself;
/// otherwise one separator is put between the two, unless `base` is empty or
/// ends in one already.
pub open spec fn join_of(base: Seq<char>, name: Seq<char>) -> Seq<char> {
    if name.len() > 0 && is_separator(name[0]) {
        name
    } else if base.len() == 0 || is_separator(base.last()) {
        base + name
    } else {
        base + seq!['/'] + name
    }
}

/// The name under which a folder shows in a listing: its final component,
/// or the whole path where that is empty.
pub open spec fn label_of(folder: Seq<char>) -> Seq<char> {
    if name_of(folder).len() == 0 {
        folder
    } else {
        name_of(folder)
    }
}

/// Whether `name` can name an entry of a folder: it is not empty and holds
/// no separator.
pub open spec fn is_plain_name(name: Seq<char>) -> bool {
    name.len() > 0 && forall|i: int| 0 <= i < name.len() ==> !is_separator(#[trigger] name[i])
}

/// Whether something can be placed directly in `folder` and found there
/// again: the folder is the root, or does not end in a separator.
pub open spec fn is_folder_path(folder: Seq<char>) -> bool {
    folder.len() == 0 || folder =~= seq!['/'] || !is_separator(folder.last())
}

/// Where the last separator is: at it there is a separator, after it none.
pub proof fn lemma_last_separator(path: Seq<char>)
    ensures
        -1 <= last_separator(path) < path.len(),
        last_separator(path) >= 0 ==> is_separator(path[last_separator(path)]),
        forall|i: int| last_separator(path) < i < path.len() ==> !is_separator(#[trigger] path[i]),
    decreases path.len(),
{
    if path.len() > 0 && !is_separator(path.last()) {
        lemma_last_separator(path.drop_last());
        assert forall|i: int| last_separator(path) < i < path.len() implies !is_separator(
            #[trigger] path[i],
        ) by {
            if i < path.len() - 1 {
                assert(path[i] == path.drop_last()[i]);
            }
        }
    }
}

/// A position that holds a separator and has none after it is the last
/// separator.
pub proof fn lemma_last_separator_at(path: Seq<char>, k: int)
    requires
        -1 <= k < path.len(),
        k >= 0 ==> is_separator(path[k]),
        forall|i: int| k < i < path.len() ==> !is_separator(#[trigger] path[i]),
    ensures
        last_separator(path) == k,
{
    lemma_last_separator(path);
    let found = last_separator(path);
    if found < k {
        assert(is_separator(path[k]));
    } else if found > k {
        assert(is_separator(path[found]));
    }
}

/// The name of a path is free of separators.
pub proof fn lemma_name_is_plain(path: Seq<char>)
    ensures
        forall|i: int| 0 <= i < name_of(path).len() ==> !is_separator(#[trigger] name_of(path)[i]),
        name_of(path).len() > 0 ==> is_plain_name(name_of(path)),
{
    lemma_last_separator(path);
    let k = last_separator(path);
    assert forall|i: int| 0 <= i < name_of(path).len() implies !is_separator(
        #[trigger] name_of(path)[i],
    ) by {
        assert(name_of(path)[i] == path[k + 1 + i]);
    }
}

/// What is placed in a folder under a plain name is found there under that
/// name: the joined path has the folder as its parent and the name as its
/// final component.
pub proof fn lemma_join_then_split(folder: Seq<char>, name: Seq<char>)
    requires
        is_plain_name(name),
    ensures
        name_of(join_of(folder, name)) == name,
        is_folder_path(folder) ==> parent_of(join_of(folder, name)) == folder,
{
    let joined = join_of(folder, name);
    assert(!is_separator(name[0]));
    if folder.len() == 0 {
        assert(joined =~= name);
        lemma_last_separator_at(joined, -1);
        assert(name_of(joined) =~= name);
        assert(parent_of(joined) =~= folder);
    } else if is_separator(folder.last()) {
        let k = folder.len() - 1;
        assert forall|i: int| k < i < joined.len() implies !is_separator(#[trigger] joined[i]) by {
            assert(joined[i] == name[i - folder.len()]);
        }
        lemma_last_separator_at(joined, k);
        assert(name_of(joined) =~= name);
        if is_folder_path(folder) {
            assert(folder =~= seq!['/']);
        }
    } else {
        let k = folder.len() as int;
        assert(joined[k] == '/');
        assert forall|i: int| k < i < joined.len() implies !is_separator(#[trigger] joined[i]) by {
            assert(joined[i] == name[i - folder.len() - 1]);
        }
        lemma_last_separator_at(joined, k);
        assert(name_of(joined) =~= name);
        assert(parent_of(joined) =~= folder);
    }
}

/// The position of the last separator among `chars`, or `None`.
fn find_last_separator(chars: &Vec<char>) -> (found: Option<usize>)
    ensures
        match found {
            Some(k) => k == last_separator(chars@),
            None => last_separator(chars@) == -1,
        },
{
    let mut i: usize = chars.len();
    while i > 0
        invariant
            i <= chars.len(),
            forall|j: int| i <= j < chars.len() ==> !is_separator(#[trigger] chars@[j]),
        decreases i,
    {
        i -= 1;
        if chars[i] == '/' {
            proof {
                lemma_last_separator_at(chars@, i as int);
            }
            return Some(i);
        }
    }
    proof {
        lemma_last_separator_at(chars@, -1);
    }
    None
}

/// The characters of `chars` from `from` up to `to`, as a string.
fn string_between(chars: &Vec<char>, from: usize, to: usize) -> (s: String)
    requires
        from <= to <= chars.len(),
    ensures
        s@ == chars@.subrange(from as int, to as int),
{
    let mut s = String::new();
    let mut i: usize = from;
    while i < to
        invariant
            from <= i <= to,
            to <= chars.len(),
            s@ == chars@.subrange(from as int, i as int),
        decreases to - i,
    {
        push_char(&mut s, chars[i]);
        i += 1;
        assert(chars@.subrange(from as int, i as int) =~= chars@.subrange(from as int, i - 1).push(
            chars@[i - 1],
        ));
    }
    s
}

/// Splits `path` at its last separator into the folder it lies in and its
/// final component.
pub fn split_path(path: &str) -> (parts: (String, String))
    ensures
        parts.0@ == parent_of(path@),
        parts.1@ == name_of(path@),
{
    let chars = chars_of(path);
    let n = chars.len();
    match find_last_separator(&chars) {
        None => {
            let name = string_between(&chars, 0, n);
            assert(chars@.subrange(0, n as int) =~= chars@.skip(0));
            (String::new(), name)
        },
        Some(k) => {
            proof {
                lemma_last_separator(chars@);
            }
            let name = string_between(&chars, k + 1, n);
            assert(chars@.subrange(k + 1, n as int) =~= chars@.skip(k + 1));
            let parent = if k == 0 {
                string_between(&chars, 0, 1)
            } else {
                string_between(&chars, 0, k)
            };
            proof {
                if k == 0 {
                    assert(chars@.subrange(0, 1) =~= seq!['/']);
                } else {
                    assert(chars@.subrange(0, k as int) =~= chars@.take(k as int));
                }
            }
            (parent, name)
        },
    }
}

/// The final component of `path`, if it has one: `None` where `path` is
/// empty or ends in a separator.
pub fn file_name(path: &str) -> (name: Option<String>)
    ensures
        match name {
            Some(n) => n@ == name_of(path@) && is_plain_name(n@),
            None => name_of(path@).len() == 0,
        },
{
    let (_, name) = split_path(path);
    proof {
        lemma_name_is_plain(path@);
    }
    if name.as_str().unicode_len() == 0 {
        None
    } else {
        Some(name)
    }
}

/// The name under which `folder` shows in a listing.
pub fn folder_label(folder: &str) -> (label: String)
    ensures
        label@ == label_of(folder@),
{
    match file_name(folder) {
        Some(name) => name,
        None => String::from_str(folder),
    }
}

/// The path of `name` inside the folder `base`.
pub fn join_path(base: &str, name: &str) -> (joined: String)
    ensures
        joined@ == join_of(base@, name@),
{
    let head = chars_of(base);
    let tail = chars_of(name);
    if tail.len() > 0 && tail[0] == '/' {
        return String::from_str(name);
    }
    let mut joined = String::from_str(base);
    if head.len() > 0 && head[head.len() - 1] != '/' {
        push_char(&mut joined, '/');
    }
    joined.append(name);
    assert(joined@ =~= join_of(base@, name@));
    joined
}

} // verus!
