//! Reading the parent theme declared in a theme's index file.

use vstd::prelude::*;
use crate::text::{chars_of, split_chars, split_on, string_of, char_views};

verus! {

/// Whether `c` has Unicode's White_Space property.
pub uninterp spec fn white_space(c: char) -> bool;

/// Relies on `char::is_whitespace`: the White_Space property of `c`, which
/// depends on `c` alone.
pub assume_specification[ char::is_whitespace ](c: char) -> (r: bool)
    ensures
        r == white_space(c),
;

/// Characters that end or surround a theme name in an `Inherits` line.
pub open spec fn is_separator(c: char) -> bool {
    white_space(c) || c == ';' || c == ','
}

/// `s` without its leading white space.
pub open spec fn skip_spaces(s: Seq<char>) -> Seq<char>
    decreases s.len(),
{
    if s.len() > 0 && white_space(s[0]) {
        skip_spaces(s.drop_first())
    } else {
        s
    }
}

/// `s` without its leading separators.
pub open spec fn skip_separators(s: Seq<char>) -> Seq<char>
    decreases s.len(),
{
    if s.len() > 0 && is_separator(s[0]) {
        skip_separators(s.drop_first())
    } else {
        s
    }
}

/// The longest prefix of `s` that holds no separator.
pub open spec fn leading_value(s: Seq<char>) -> Seq<char>
    decreases s.len(),
{
    if s.len() > 0 && !is_separator(s[0]) {
        seq![s[0]] + leading_value(s.drop_first())
    } else {
        Seq::empty()
    }
}

/// The value that one line declares: after the key `Inherits`, optional white
/// space and `=`, the first run of non-separators; empty where the line
/// declares nothing.
pub open spec fn line_value(line: Seq<char>) -> Seq<char> {
    let key = "Inherits"@;
    if line.len() >= key.len() && line.subrange(0, key.len() as int) == key {
        let rest = skip_spaces(line.subrange(key.len() as int, line.len() as int));
        if rest.len() > 0 && rest[0] == '=' {
            leading_value(skip_separators(rest.drop_first()))
        } else {
            Seq::empty()
        }
    } else {
        Seq::empty()
    }
}

/// The first non-empty value among `lines`.
pub open spec fn first_value(lines: Seq<Seq<char>>) -> Option<Seq<char>>
    decreases lines.len(),
{
    if lines.len() == 0 {
        None
    } else if line_value(lines[0]).len() > 0 {
        Some(line_value(lines[0]))
    } else {
        first_value(lines.drop_first())
    }
}

/// The parent theme that an index file declares. Lines are split at `\n`; a
/// `\r` before it is white space, so it ends a value like any other.
pub open spec fn inherits_of(content: Seq<char>) -> Option<Seq<char>> {
    first_value(split_on(content, '\n'))
}

/// The first position at or after `i` that holds no white space.
fn skip_spaces_from(s: &[char], i: usize) -> (j: usize)
    requires
        i <= s@.len(),
    ensures
        i <= j <= s@.len(),
        s@.subrange(j as int, s@.len() as int) == skip_spaces(s@.subrange(i as int, s@.len() as int)),
{
    let mut j = i;
    while j < s.len() && s[j].is_whitespace()
        invariant
            i <= j <= s@.len(),
            skip_spaces(s@.subrange(j as int, s@.len() as int)) == skip_spaces(
                s@.subrange(i as int, s@.len() as int),
            ),
        decreases s@.len() - j,
    {
        assert(s@.subrange(j as int, s@.len() as int).drop_first() =~= s@.subrange(
            j + 1,
            s@.len() as int,
        ));
        j += 1;
    }
    j
}

/// The first position at or after `i` that holds no separator.
fn skip_separators_from(s: &[char], i: usize) -> (j: usize)
    requires
        i <= s@.len(),
    ensures
        i <= j <= s@.len(),
        s@.subrange(j as int, s@.len() as int) == skip_separators(
            s@.subrange(i as int, s@.len() as int),
        ),
{
    let mut j = i;
    while j < s.len() && (s[j].is_whitespace() || s[j] == ';' || s[j] == ',')
        invariant
            i <= j <= s@.len(),
            skip_separators(s@.subrange(j as int, s@.len() as int)) == skip_separators(
                s@.subrange(i as int, s@.len() as int),
            ),
        decreases s@.len() - j,
    {
        assert(s@.subrange(j as int, s@.len() as int).drop_first() =~= s@.subrange(
            j + 1,
            s@.len() as int,
        ));
        j += 1;
    }
    j
}

/// The run of non-separators that starts at `i`.
fn value_from(s: &[char], i: usize) -> (r: Vec<char>)
    requires
        i <= s@.len(),
    ensures
        r@ == leading_value(s@.subrange(i as int, s@.len() as int)),
{
    let mut out: Vec<char> = Vec::new();
    let mut j = i;
    while j < s.len() && !(s[j].is_whitespace() || s[j] == ';' || s[j] == ',')
        invariant
            i <= j <= s@.len(),
            out@ + leading_value(s@.subrange(j as int, s@.len() as int)) == leading_value(
                s@.subrange(i as int, s@.len() as int),
            ),
        decreases s@.len() - j,
    {
        assert(s@.subrange(j as int, s@.len() as int).drop_first() =~= s@.subrange(
            j + 1,
            s@.len() as int,
        ));
        out.push(s[j]);
        j += 1;
        assert(out@ + leading_value(s@.subrange(j as int, s@.len() as int)) =~= leading_value(
            s@.subrange(i as int, s@.len() as int),
        ));
    }
    assert(out@ + leading_value(s@.subrange(j as int, s@.len() as int)) =~= out@);
    out
}

/// The value that `line` declares, as in `line_value`.
fn value_of_line(line: &[char], key: &[char]) -> (r: Vec<char>)
    requires
        key@ == "Inherits"@,
    ensures
        r@ == line_value(line@),
{
    if line.len() < key.len() {
        return Vec::new();
    }
    let mut k: usize = 0;
    while k < key.len()
        invariant
            k <= key@.len() <= line@.len(),
            key@ == "Inherits"@,
            line@.subrange(0, k as int) == key@.subrange(0, k as int),
        decreases key@.len() - k,
    {
        if line[k] != key[k] {
            assert(line@.subrange(0, key@.len() as int)[k as int] != key@[k as int]);
            assert(line@.subrange(0, key@.len() as int) != key@);
            return Vec::new();
        }
        k += 1;
        assert(line@.subrange(0, k as int) =~= key@.subrange(0, k as int));
    }
    assert(key@.subrange(0, key@.len() as int) =~= key@);
    let j = skip_spaces_from(line, key.len());
    if j < line.len() && line[j] == '=' {
        assert(line@.subrange(j as int, line@.len() as int).drop_first() =~= line@.subrange(
            j + 1,
            line@.len() as int,
        ));
        let v = skip_separators_from(line, j + 1);
        value_from(line, v)
    } else {
        Vec::new()
    }
}

/// The parent theme that the index file text `content` declares: the value of
/// the first line that declares a non-empty one.
pub fn theme_inherits(content: &str) -> (r: Option<String>)
    ensures
        match r {
            Some(v) => inherits_of(content@) == Some(v@),
            None => inherits_of(content@) is None,
        },
{
    let key = chars_of("Inherits");
    let cs = chars_of(content);
    let lines = split_chars(&cs, '\n');
    let ghost all = char_views(lines@);
    let mut i: usize = 0;
    assert(all.subrange(0, all.len() as int) =~= all);
    while i < lines.len()
        invariant
            i <= lines@.len(),
            all == char_views(lines@),
            all == split_on(content@, '\n'),
            key@ == "Inherits"@,
            first_value(all.subrange(i as int, all.len() as int)) == first_value(all),
        decreases lines@.len() - i,
    {
        let v = value_of_line(&lines[i], &key);
        assert(all[i as int] == lines@[i as int]@);
        assert(all.subrange(i as int, all.len() as int)[0] == all[i as int]);
        assert(all.subrange(i as int, all.len() as int).drop_first() =~= all.subrange(
            i + 1,
            all.len() as int,
        ));
        if v.len() > 0 {
            return Some(string_of(&v));
        }
        i += 1;
    }
    None
}

} // verus!
