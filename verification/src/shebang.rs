//! The shebang parser: reading an interpreter request off the first
//! line of a script.  The caller supplies the script's text (or as much
//! of it as it cared to read); absence of a shebang is a normal result,
//! never an error.

use crate::text::{
    first_index_of, is_digit_char, lemma_first_index_of_at, split_ws, str_starts_with, trim,
    trim_spec, words,
};
use crate::version::{parse_spec, RequestedVersion};
use vstd::prelude::*;

verus! {

/// The shebang line of a script: present when the text starts with
/// `#!`, and then the first line with the marker stripped and
/// surrounding whitespace removed.
pub open spec fn shebang_line(s: Seq<char>) -> Option<Seq<char>> {
    let line = s.subrange(0, first_index_of(s, '\n'));
    if line.len() >= 2 && line[0] == '#' && line[1] == '!' {
        Some(trim_spec(line.subrange(2, line.len() as int)))
    } else {
        None
    }
}

/// Finds the shebang line of `content`, stripped of the `#!` marker and
/// of leading and trailing whitespace.
pub fn find_shebang(content: &str) -> (r: Option<String>)
    ensures
        match r {
            Some(l) => shebang_line(content@) == Some(l@),
            None => shebang_line(content@) is None,
        },
{
    let n = content.unicode_len();
    let mut e: usize = 0;
    while e < n && content.get_char(e) != '\n'
        invariant
            0 <= e <= n == content@.len(),
            forall|j: int| 0 <= j < e ==> #[trigger] content@[j] != '\n',
        decreases n - e,
    {
        e = e + 1;
    }
    proof {
        lemma_first_index_of_at(content@, '\n', e as int);
    }
    let ghost line = content@.subrange(0, e as int);
    if e < 2 {
        return None;
    }
    if content.get_char(0) == '#' && content.get_char(1) == '!' {
        proof {
            assert(line[0] == '#' && line[1] == '!');
            assert(line.subrange(2, line.len() as int) =~= content@.subrange(2, e as int));
        }
        let tail = content.substring_char(2, e);
        let trimmed = trim(tail);
        Some(trimmed.to_owned())
    } else {
        proof {
            assert(line[0] == content@[0] && line[1] == content@[1]);
        }
        None
    }
}

/// Index of the first character of `s` that can not belong to a version
/// fragment (neither a digit nor a dot), or `s.len()`.
pub open spec fn first_non_frag(s: Seq<char>) -> int
    decreases s.len(),
{
    if s.len() == 0 {
        0
    } else if !(is_digit_char(s[0]) || s[0] == '.') {
        0
    } else {
        1 + first_non_frag(s.subrange(1, s.len() as int))
    }
}

pub proof fn lemma_first_non_frag(s: Seq<char>)
    ensures
        0 <= first_non_frag(s) <= s.len(),
        first_non_frag(s) < s.len() ==> !(is_digit_char(s[first_non_frag(s)])
            || s[first_non_frag(s)] == '.'),
        forall|i: int|
            0 <= i < first_non_frag(s) ==> is_digit_char(#[trigger] s[i]) || s[i] == '.',
    decreases s.len(),
{
    if s.len() > 0 && (is_digit_char(s[0]) || s[0] == '.') {
        let sub = s.subrange(1, s.len() as int);
        lemma_first_non_frag(sub);
        assert forall|i: int| 0 <= i < first_non_frag(s) implies is_digit_char(#[trigger] s[i])
            || s[i] == '.' by {
            if i >= 1 {
                assert(sub[i - 1] == s[i]);
            }
        }
    }
}

pub proof fn lemma_first_non_frag_at(s: Seq<char>, i: int)
    requires
        0 <= i <= s.len(),
        forall|j: int| 0 <= j < i ==> is_digit_char(#[trigger] s[j]) || s[j] == '.',
        i < s.len() ==> !(is_digit_char(s[i]) || s[i] == '.'),
    ensures
        first_non_frag(s) == i,
{
    lemma_first_non_frag(s);
}

/// What a recognized shebang line yields once its interpreter prefix of
/// length `p` is stripped: the version written in the digits-and-dots
/// fragment right after the prefix (an empty fragment defaults to major
/// two), and the remaining words as arguments.  A fragment the grammar
/// rejects yields nothing.
pub open spec fn split_after(line: Seq<char>, p: int) -> Option<(RequestedVersion, Seq<Seq<char>>)> {
    let rest = line.subrange(p, line.len() as int);
    let k = first_non_frag(rest);
    let v = if k == 0 {
        Some(RequestedVersion::MajorOnly(2))
    } else {
        parse_spec(rest.subrange(0, k))
    };
    match v {
        Some(ver) => Some((ver, words(rest.subrange(k, rest.len() as int)))),
        None => None,
    }
}

/// The version request and argument list carried by a shebang line, if
/// the line names an interpreter in one of the recognized forms.
pub open spec fn split_shebang_spec(line: Seq<char>) -> Option<(RequestedVersion, Seq<Seq<char>>)> {
    if "/usr/bin/python"@.is_prefix_of(line) {
        split_after(line, "/usr/bin/python"@.len() as int)
    } else if "/usr/local/bin/python"@.is_prefix_of(line) {
        split_after(line, "/usr/local/bin/python"@.len() as int)
    } else if "/usr/bin/env python"@.is_prefix_of(line) {
        split_after(line, "/usr/bin/env python"@.len() as int)
    } else if "python"@.is_prefix_of(line) {
        split_after(line, "python"@.len() as int)
    } else {
        None
    }
}

fn split_tail(line: &str, p: usize) -> (r: Option<(RequestedVersion, Vec<String>)>)
    requires
        p <= line@.len(),
    ensures
        match r {
            Some((v, args)) => split_after(line@, p as int) == Some(
                (v, args@.map_values(|w: String| w@)),
            ),
            None => split_after(line@, p as int) is None,
        },
{
    let n = line.unicode_len();
    let ghost rest = line@.subrange(p as int, n as int);
    let mut j: usize = p;
    while j < n
        invariant_except_break
            p <= j <= n == line@.len(),
            forall|i: int| p <= i < j ==> is_digit_char(#[trigger] line@[i]) || line@[i] == '.',
        ensures
            p <= j <= n == line@.len(),
            forall|i: int| p <= i < j ==> is_digit_char(#[trigger] line@[i]) || line@[i] == '.',
            j < n ==> !(is_digit_char(line@[j as int]) || line@[j as int] == '.'),
        decreases n - j,
    {
        let c = line.get_char(j);
        if !(crate::text::is_digit(c) || c == '.') {
            break;
        }
        j = j + 1;
    }
    proof {
        assert forall|i: int| 0 <= i < j - p implies is_digit_char(#[trigger] rest[i]) || rest[i]
            == '.' by {
            assert(rest[i] == line@[i + p]);
        }
        if j < n {
            assert(rest[j - p] == line@[j as int]);
        }
        lemma_first_non_frag_at(rest, j - p);
    }
    let version = if j == p {
        RequestedVersion::MajorOnly(2)
    } else {
        proof {
            assert(rest.subrange(0, j - p) =~= line@.subrange(p as int, j as int));
        }
        match RequestedVersion::parse(line.substring_char(p, j)) {
            Some(v) => v,
            None => {
                return None;
            },
        }
    };
    let args = split_ws(line.substring_char(j, n));
    proof {
        assert(rest.subrange(j - p, rest.len() as int) =~= line@.subrange(j as int, n as int));
    }
    Some((version, args))
}

/// Splits a shebang line into the requested version and the arguments
/// to pass along; `None` when the line does not name an interpreter in
/// a recognized form or writes a version the grammar rejects.
pub fn split_shebang(shebang_line: &str) -> (r: Option<(RequestedVersion, Vec<String>)>)
    ensures
        match r {
            Some((v, args)) => split_shebang_spec(shebang_line@) == Some(
                (v, args@.map_values(|w: String| w@)),
            ),
            None => split_shebang_spec(shebang_line@) is None,
        },
{
    if str_starts_with(shebang_line, "/usr/bin/python") {
        split_tail(shebang_line, "/usr/bin/python".unicode_len())
    } else if str_starts_with(shebang_line, "/usr/local/bin/python") {
        split_tail(shebang_line, "/usr/local/bin/python".unicode_len())
    } else if str_starts_with(shebang_line, "/usr/bin/env python") {
        split_tail(shebang_line, "/usr/bin/env python".unicode_len())
    } else if str_starts_with(shebang_line, "python") {
        split_tail(shebang_line, "python".unicode_len())
    } else {
        None
    }
}

/// Reads the version request and arguments from a script's text: the
/// shebang line is found and split in one step.  Text without a
/// recognized python shebang yields nothing.
pub fn parse_python_shebang(content: &str) -> (r: Option<(RequestedVersion, Vec<String>)>)
    ensures
        match r {
            Some((v, args)) => ({
                let sl = shebang_line(content@);
                &&& sl is Some
                &&& split_shebang_spec(sl->Some_0) == Some((v, args@.map_values(|w: String| w@)))
            }),
            None => ({
                let sl = shebang_line(content@);
                sl is None || split_shebang_spec(sl->Some_0) is None
            }),
        },
{
    match find_shebang(content) {
        Some(line) => split_shebang(line.as_str()),
        None => None,
    }
}

} // verus!
