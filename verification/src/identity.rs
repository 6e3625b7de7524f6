//! The identity of a declaration, by which two snapshots are paired.

use vstd::prelude::*;
use vstd::slice::slice_subrange;

use crate::attributes::{strip_attributes, without_attributes};
use crate::text::{
    chars_of, first_line, head_line, is_whitespace, starts_with, trim, trim_start, trimmed,
    trimmed_start, white_space,
};

verus! {

/// The line that identifies a declaration: the first line of what is left
/// behind the attributes that it starts with. Where nothing is left, that is
/// the whole declaration.
pub open spec fn identifying_line(decl: Seq<char>) -> Seq<char> {
    let rest = without_attributes(decl);
    if rest.len() > 0 {
        trimmed(first_line(rest))
    } else {
        trimmed(decl)
    }
}

/// Whether `line` starts with the word `keyword` and white space after it.
pub open spec fn leads_with(line: Seq<char>, keyword: Seq<char>) -> bool {
    &&& keyword.is_prefix_of(line)
    &&& keyword.len() < line.len()
    &&& white_space(line[keyword.len() as int])
}

/// `line` without a leading access level and the white space after it.
pub open spec fn without_access(line: Seq<char>) -> Seq<char> {
    if leads_with(line, "public"@) {
        trimmed_start(line.skip("public"@.len() as int))
    } else if leads_with(line, "open"@) {
        trimmed_start(line.skip("open"@.len() as int))
    } else if leads_with(line, "package"@) {
        trimmed_start(line.skip("package"@.len() as int))
    } else {
        line
    }
}

/// `s` with one space in place of each stretch of white space.
pub open spec fn collapsed(s: Seq<char>) -> Seq<char>
    decreases s.len(),
{
    if s.len() == 0 {
        s
    } else {
        let rest = s.drop_last();
        if !white_space(s.last()) {
            collapsed(rest).push(s.last())
        } else if rest.len() > 0 && white_space(rest.last()) {
            collapsed(rest)
        } else {
            collapsed(rest).push(' ')
        }
    }
}

/// The identity of a declaration: the line that identifies it, without the
/// access level, and with one space in place of each stretch of white space.
pub open spec fn identity(decl: Seq<char>) -> Seq<char> {
    collapsed(without_access(identifying_line(decl)))
}

/// `line` without a leading `public`, `open` or `package`.
pub fn strip_access_prefix(line: &[char]) -> (r: &[char])
    ensures
        r@ == without_access(line@),
{
    match strip_keyword(line, "public") {
        Some(rest) => {
            return rest;
        },
        None => {},
    }
    match strip_keyword(line, "open") {
        Some(rest) => {
            return rest;
        },
        None => {},
    }
    match strip_keyword(line, "package") {
        Some(rest) => {
            return rest;
        },
        None => {},
    }
    line
}

fn strip_keyword<'a>(line: &'a [char], keyword: &str) -> (r: Option<&'a [char]>)
    ensures
        match r {
            Some(rest) => leads_with(line@, keyword@) && rest@ == trimmed_start(
                line@.skip(keyword@.len() as int),
            ),
            None => !leads_with(line@, keyword@),
        },
{
    let keyword = chars_of(keyword);
    let n = keyword.len();
    if starts_with(line, keyword.as_slice()) && n < line.len() && is_whitespace(line[n]) {
        Some(trim_start(slice_subrange(line, n, line.len())))
    } else {
        None
    }
}

/// The line that identifies a declaration.
fn find_line(decl: &[char]) -> (r: &[char])
    ensures
        r@ == identifying_line(decl@),
{
    let rest = strip_attributes(decl);
    if rest.len() > 0 {
        trim(head_line(rest))
    } else {
        trim(decl)
    }
}

/// `s` with one space in place of each stretch of white space.
fn collapse(s: &[char]) -> (r: String)
    ensures
        r@ == collapsed(s@),
{
    let mut out = String::new();
    let mut after_space = false;
    for i in 0..s.len()
        invariant
            out@ == collapsed(s@.take(i as int)),
            after_space == (i > 0 && white_space(s@[i - 1])),
    {
        let c = s[i];
        assert(s@.take(i as int + 1).drop_last() =~= s@.take(i as int));
        if is_whitespace(c) {
            if !after_space {
                out.push(' ');
            }
            after_space = true;
        } else {
            out.push(c);
            after_space = false;
        }
    }
    assert(s@.take(s@.len() as int) =~= s@);
    out
}

/// The identity of a declaration.
///
/// It does not change when an attribute is put before the declaration, on the
/// same line or on one of its own, when the access level changes, or when
/// white space does, so that such a change shows up as a change of one
/// declaration. Attributes of parameters are part of it.
pub fn identity_key(decl: &str) -> (r: String)
    ensures
        r@ == identity(decl@),
{
    let decl = chars_of(decl);
    collapse(strip_access_prefix(find_line(decl.as_slice())))
}

} // verus!
