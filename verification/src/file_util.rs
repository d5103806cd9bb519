//! Paths of the parts of a package.
//!
//! A path is a text in which `/` separates the names. A path that was
//! written with `\` is brought into that form first.

use crate::text::{from_chars, has_prefix, starts_with, to_chars};
use vstd::prelude::*;

verus! {

/// The character that separates the names of a path.
pub const SEPARATOR: char = '/';

/// The other character that a path may have been written with.
pub const FOREIGN_SEPARATOR: char = '\\';

/// Operations on paths.
pub struct FileUtil {}

/// The path `s` with every `\` replaced by `/`.
pub open spec fn normalized(s: Seq<char>) -> Seq<char> {
    Seq::new(
        s.len(),
        |i: int|
            if s[i] == FOREIGN_SEPARATOR {
                SEPARATOR
            } else {
                s[i]
            },
    )
}

/// The directory `dir` as the start of the paths below it: with `/` at its end.
pub open spec fn as_base(dir: Seq<char>) -> Seq<char> {
    if dir.len() > 0 && dir.last() == SEPARATOR {
        dir
    } else {
        dir.push(SEPARATOR)
    }
}

/// The path `path` as seen from the directory `base_dir`: without the
/// directory at its start where it lies below it, and whole where it does not.
pub open spec fn sub_path(path: Seq<char>, base_dir: Seq<char>) -> Seq<char> {
    let base = as_base(normalized(base_dir));
    let full = normalized(path);
    if starts_with(full, base) {
        full.skip(base.len() as int)
    } else {
        full
    }
}

/// The characters of `s` with every `\` replaced by `/`.
fn normalized_chars(s: &str) -> (res: Vec<char>)
    ensures
        res@ == normalized(s@),
{
    let chars = to_chars(s);
    let mut res: Vec<char> = Vec::new();
    let mut i: usize = 0;
    while i < chars.len()
        invariant
            i <= chars.len(),
            chars@ == s@,
            res@ == normalized(s@).take(i as int),
        decreases chars.len() - i,
    {
        let c = chars[i];
        if c == FOREIGN_SEPARATOR {
            res.push(SEPARATOR);
        } else {
            res.push(c);
        }
        i += 1;
        assert(res@ =~= normalized(s@).take(i as int));
    }
    assert(normalized(s@).take(chars.len() as int) =~= normalized(s@));
    res
}

impl FileUtil {
    /// Brings a path into the form in which `/` separates the names.
    pub fn normalize_path(s: &str) -> (res: String)
        ensures
            res@ == normalized(s@),
    {
        let chars = normalized_chars(s);
        let res = from_chars(&chars, 0);
        assert(chars@.skip(0) =~= chars@);
        res
    }

    /// Gives the path `path` as seen from the directory `base_dir`.
    pub fn get_sub_path(path: &str, base_dir: &str) -> (res: String)
        ensures
            res@ == sub_path(path@, base_dir@),
    {
        let mut base = normalized_chars(base_dir);
        if base.len() == 0 || base[base.len() - 1] != SEPARATOR {
            base.push(SEPARATOR);
        }
        assert(base@ == as_base(normalized(base_dir@)));
        let full = normalized_chars(path);
        if has_prefix(&full, &base) {
            from_chars(&full, base.len())
        } else {
            let res = from_chars(&full, 0);
            assert(full@.skip(0) =~= full@);
            res
        }
    }
}

} // verus!
