//! How std reads the file name of a path, on paths where Unix and Windows
//! read it alike: no backslash, no drive colon, no `//` that could open a
//! Windows UNC prefix.
use vstd::prelude::*;

verus! {

/// The last position of `c` in `s`, or -1.
pub open spec fn last_index_of(s: Seq<char>, c: char) -> int
    decreases s.len(),
{
    if s.len() == 0 {
        -1
    } else if s.last() == c {
        s.len() - 1
    } else {
        last_index_of(s.drop_last(), c)
    }
}

/// What follows the last `/` of a path.
pub open spec fn file_segment(p: Seq<char>) -> Seq<char> {
    p.skip(last_index_of(p, '/') + 1)
}

/// The path holds no `\` and no `:`, does not open with `//`, and ends in a
/// file name: a last segment that is neither empty, `.` nor `..`. On such a
/// path both Unix and Windows take `/` as the only separator and see no
/// prefix, so the file name is that last segment.
pub open spec fn plain_path(p: Seq<char>) -> bool {
    &&& !p.contains('\\')
    &&& !p.contains(':')
    &&& !(p.len() >= 2 && p[0] == '/' && p[1] == '/')
    &&& file_segment(p).len() > 0
    &&& file_segment(p) != seq!['.']
    &&& file_segment(p) != seq!['.', '.']
}

/// The extension of a file name as `Path::extension` documents it: none
/// without an embedded `.`, none for a name that begins with `.` and has no
/// other, else what follows the final `.`.
pub open spec fn documented_extension(name: Seq<char>) -> Option<Seq<char>> {
    let d = last_index_of(name, '.');
    if d <= 0 {
        None
    } else {
        Some(name.skip(d + 1))
    }
}

/// The stem of a file name as `Path::file_stem` documents it: the whole
/// name without an embedded `.` or when it begins with `.` and has no
/// other, else what precedes the final `.`.
pub open spec fn documented_stem(name: Seq<char>) -> Seq<char> {
    let d = last_index_of(name, '.');
    if d <= 0 {
        name
    } else {
        name.take(d)
    }
}

} // verus!
