//! The record by which a process names its cgroup.
//!
//! In the unified hierarchy the membership file of a process holds one line,
//! `<hierarchy-id>::<cgroup-path>`: a number, an empty list of controllers
//! between two colons, and the path of the cgroup from the mount point on.

use crate::error::WaspError;
use crate::text::{chars_of, count_trailing_space, is_digit, leading_run, lemma_leading_run,
    trim_end};
use vstd::prelude::*;

verus! {

/// The cgroup path that the membership file `content` names, or `None`
/// where `content` is not one record of the unified hierarchy.
///
/// White space at the end is not part of the record. What is left must be a
/// single line that begins with one or more digits and two colons; the path
/// is all that follows them.
pub open spec fn record_path(content: Seq<char>) -> Option<Seq<char>> {
    let line = trim_end(content);
    let id_len = leading_run(line, |c: char| is_digit(c)) as int;
    if 0 < id_len && id_len + 2 <= line.len() && line[id_len] == ':' && line[id_len + 1] == ':'
        && !line.contains('\n') {
        Some(line.skip(id_len + 2))
    } else {
        None
    }
}

/// Whether `c` is a decimal digit.
pub fn char_is_digit(c: char) -> (r: bool)
    ensures
        r == is_digit(c),
{
    '0' <= c && c <= '9'
}

/// Reads the membership file `content`: the cgroup path it names, or
/// `ParseError`.
pub fn parse_membership(content: &str) -> (r: Result<String, WaspError>)
    ensures
        match record_path(content@) {
            Some(path) => r is Ok && r->Ok_0@ == path,
            None => r == Err::<String, WaspError>(WaspError::ParseError),
        },
{
    let chars = chars_of(content);
    let end: usize = chars.len() - count_trailing_space(&chars);
    let ghost line = trim_end(content@);
    assert(line == chars@.take(end as int));
    let mut id_len: usize = 0;
    while id_len < end && char_is_digit(chars[id_len])
        invariant
            id_len <= end <= chars.len(),
            line == chars@.take(end as int),
            forall|i: int| 0 <= i < id_len ==> is_digit(#[trigger] line[i]),
        decreases end - id_len,
    {
        id_len += 1;
    }
    proof {
        lemma_leading_run(line, |c: char| is_digit(c), id_len as int);
    }
    if id_len == 0 || end - id_len < 2 || chars[id_len] != ':' || chars[id_len + 1] != ':' {
        return Err(WaspError::ParseError);
    }
    let mut i: usize = 0;
    while i < end
        invariant
            i <= end <= chars.len(),
            line == trim_end(content@),
            line == chars@.take(end as int),
            forall|j: int| 0 <= j < i ==> line[j] != '\n',
        decreases end - i,
    {
        if chars[i] == '\n' {
            assert(0 <= i < line.len() && line[i as int] == '\n');
            assert(line.contains('\n'));
            return Err(WaspError::ParseError);
        }
        i += 1;
    }
    let path = content.substring_char(id_len + 2, end).to_owned();
    assert(path@ =~= line.skip(id_len + 2));
    Ok(path)
}

} // verus!
