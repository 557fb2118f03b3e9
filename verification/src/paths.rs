//! Paths as text: the name of a file, and its extension.

use crate::text::{chars_of, string_of};
use vstd::prelude::*;

verus! {

/// What separates the parts of a path.
pub const SEPARATOR: char = '/';

/// The length of `path` without the separators at its end.
pub open spec fn trimmed_len(path: Seq<char>) -> nat
    decreases path.len(),
{
    if path.len() > 0 && path.last() == SEPARATOR {
        trimmed_len(path.drop_last())
    } else {
        path.len()
    }
}

/// Where the last part of `path[..end]` starts: behind the last separator before `end`, or
/// at 0 if there is none.
pub open spec fn name_start(path: Seq<char>, end: int) -> int
    decreases end,
{
    if end <= 0 {
        0
    } else if path[end - 1] == SEPARATOR {
        end
    } else {
        name_start(path, end - 1)
    }
}

/// The name of the file or directory that `path` leads to: its last part, the separators at
/// its end aside.
pub open spec fn file_name_of(path: Seq<char>) -> Seq<char> {
    path.subrange(name_start(path, trimmed_len(path) as int), trimmed_len(path) as int)
}

/// Whether `name` has the extension of a Pyret file: it ends in `.arr`, and that is not
/// the whole of it.
pub open spec fn is_arr_name(name: Seq<char>) -> bool {
    &&& name.len() > 4
    &&& name[name.len() - 4] == '.'
    &&& name[name.len() - 3] == 'a'
    &&& name[name.len() - 2] == 'r'
    &&& name[name.len() - 1] == 'r'
}

/// Where the name of the file starts in `chars`, and where it ends.
fn name_range(chars: &Vec<char>) -> (range: (usize, usize))
    ensures
        range.0 == name_start(chars@, trimmed_len(chars@) as int),
        range.1 == trimmed_len(chars@),
        range.0 <= range.1 <= chars@.len(),
{
    let mut end: usize = chars.len();
    assert(chars@.take(end as int) =~= chars@);
    while end > 0 && chars[end - 1] == SEPARATOR
        invariant
            end <= chars@.len(),
            trimmed_len(chars@.take(end as int)) == trimmed_len(chars@),
        decreases end,
    {
        assert(chars@.take(end as int).drop_last() =~= chars@.take(end - 1));
        end -= 1;
    }
    assert(trimmed_len(chars@.take(end as int)) == end);
    let mut start: usize = end;
    while start > 0 && chars[start - 1] != SEPARATOR
        invariant
            start <= end,
            end <= chars@.len(),
            name_start(chars@, start as int) == name_start(chars@, end as int),
        decreases start,
    {
        start -= 1;
    }
    (start, end)
}

/// The name of the file or directory that `path` leads to.
pub fn file_name(path: &str) -> (name: String)
    ensures
        name@ == file_name_of(path@),
{
    let chars: Vec<char> = chars_of(path);
    let (start, end) = name_range(&chars);
    string_of(&chars, start, end)
}

/// Whether the file that `path` leads to has the extension `arr`.
pub fn is_arr_file(path: &str) -> (b: bool)
    ensures
        b == is_arr_name(file_name_of(path@)),
{
    let chars: Vec<char> = chars_of(path);
    let (start, end) = name_range(&chars);
    end - start > 4 && chars[end - 4] == '.' && chars[end - 3] == 'a' && chars[end - 2] == 'r'
        && chars[end - 1] == 'r'
}

} // verus!
