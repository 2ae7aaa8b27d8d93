//! The `.npmrc` registry-line grammar: reading which registry URL a config
//! file sets, and rewriting its registry assignment lines.
//!
//! A registry assignment line is optional whitespace, the word `registry`,
//! optional whitespace, `=`, and the rest of the line. When reading, the
//! value is the rest of the line with surrounding whitespace trimmed, and a
//! line whose value is empty sets nothing. When rewriting, every assignment
//! line — even one with an empty value — is replaced whole.

use vstd::prelude::*;
use vstd::string::StrSliceExecFns;

verus! {

/// Whitespace that may surround the parts of an assignment line (newlines
/// separate lines and never occur inside one).
pub open spec fn is_line_space(c: char) -> bool {
    c == ' ' || c == '\t' || c == '\r' || c == '\u{000B}' || c == '\u{000C}'
}

/// Leading whitespace dropped.
pub open spec fn trim_leading(l: Seq<char>) -> Seq<char>
    decreases l.len(),
{
    if l.len() > 0 && is_line_space(l[0]) {
        trim_leading(l.drop_first())
    } else {
        l
    }
}

/// Trailing whitespace dropped.
pub open spec fn trim_trailing(l: Seq<char>) -> Seq<char>
    decreases l.len(),
{
    if l.len() > 0 && is_line_space(l.last()) {
        trim_trailing(l.drop_last())
    } else {
        l
    }
}

/// The keyword that starts an assignment line.
pub open spec fn registry_keyword() -> Seq<char> {
    seq!['r', 'e', 'g', 'i', 's', 't', 'r', 'y']
}

/// Parse one line as a registry assignment: `Some(value)` — the value
/// trimmed of surrounding whitespace, possibly empty — when the line is an
/// assignment, `None` otherwise.
pub open spec fn spec_registry_value(l: Seq<char>) -> Option<Seq<char>> {
    let t = trim_leading(l);
    if t.len() >= 8 && t.take(8) == registry_keyword() {
        let after = trim_leading(t.skip(8));
        if after.len() >= 1 && after[0] == '=' {
            Option::Some(trim_trailing(trim_leading(after.drop_first())))
        } else {
            Option::None
        }
    } else {
        Option::None
    }
}

/// Dropping all-space prefixes one character at a time reaches the first
/// non-space position.
proof fn lemma_trim_leading_at(l: Seq<char>, i: int)
    requires
        0 <= i <= l.len(),
        forall|k: int| 0 <= k < i ==> is_line_space(#[trigger] l[k]),
        i < l.len() ==> !is_line_space(l[i]),
    ensures
        trim_leading(l) == l.skip(i),
    decreases i,
{
    if i == 0 {
        if l.len() > 0 {
            assert(!is_line_space(l[0]));
        }
        assert(trim_leading(l) =~= l.skip(0));
    } else {
        lemma_trim_leading_at(l.drop_first(), i - 1);
        assert(l.drop_first().skip(i - 1) =~= l.skip(i));
    }
}

/// Dropping all-space suffixes one character at a time reaches the last
/// non-space position.
proof fn lemma_trim_trailing_at(l: Seq<char>, j: int)
    requires
        0 <= j <= l.len(),
        forall|k: int| j <= k < l.len() ==> is_line_space(#[trigger] l[k]),
        j > 0 ==> !is_line_space(l[j - 1]),
    ensures
        trim_trailing(l) == l.take(j),
    decreases l.len(),
{
    if j == l.len() {
        if l.len() > 0 {
            assert(!is_line_space(l.last()));
        }
        assert(trim_trailing(l) =~= l.take(j));
    } else {
        assert(is_line_space(l.last()));
        lemma_trim_trailing_at(l.drop_last(), j);
        assert(l.drop_last().take(j) =~= l.take(j));
    }
}

/// Whether `c` counts as line whitespace.
pub fn is_space_char(c: char) -> (r: bool)
    ensures
        r == is_line_space(c),
{
    c == ' ' || c == '\t' || c == '\r' || c == '\u{000B}' || c == '\u{000C}'
}

/// Parse one line as a registry assignment, yielding the trimmed value.
pub fn line_registry_value<'a>(line: &'a str) -> (r: Option<&'a str>)
    ensures
        match r {
            Option::Some(v) => spec_registry_value(line@) == Option::Some(v@),
            Option::None => spec_registry_value(line@) is None,
        },
{
    let n = line.unicode_len();
    let mut i: usize = 0;
    while i < n && is_space_char(line.get_char(i))
        invariant
            n == line@.len(),
            i <= n,
            forall|k: int| 0 <= k < i ==> is_line_space(#[trigger] line@[k]),
        decreases n - i,
    {
        i = i + 1;
    }
    proof {
        lemma_trim_leading_at(line@, i as int);
    }
    let ghost t = trim_leading(line@);
    if n - i < 8 {
        proof {
            assert(t.len() < 8);
        }
        return Option::None;
    }
    let kw = "registry";
    proof {
        reveal_strlit("registry");
        assert(kw@ =~= registry_keyword());
    }
    let mut k: usize = 0;
    while k < 8
        invariant
            n == line@.len(),
            i + 8 <= n,
            k <= 8,
            t == trim_leading(line@),
            t == line@.skip(i as int),
            kw@ == registry_keyword(),
            forall|m: int| 0 <= m < k ==> line@[i + m] == registry_keyword()[m],
        decreases 8 - k,
    {
        if line.get_char(i + k) != kw.get_char(k) {
            proof {
                assert(t.take(8)[k as int] == line@[i + k]);
                assert(t.take(8) != registry_keyword());
            }
            return Option::None;
        }
        k = k + 1;
    }
    proof {
        assert(t.take(8) =~= registry_keyword());
    }
    let mut j: usize = i + 8;
    while j < n && is_space_char(line.get_char(j))
        invariant
            n == line@.len(),
            i + 8 <= j <= n,
            forall|k2: int| i + 8 <= k2 < j ==> is_line_space(#[trigger] line@[k2]),
        decreases n - j,
    {
        j = j + 1;
    }
    proof {
        assert(t.skip(8) =~= line@.skip(i as int + 8));
        lemma_trim_leading_at(line@.skip(i as int + 8), j - (i + 8));
        assert(line@.skip(i as int + 8).skip(j - (i + 8)) =~= line@.skip(j as int));
    }
    let ghost after = trim_leading(t.skip(8));
    proof {
        assert(after == line@.skip(j as int));
    }
    if j == n {
        proof {
            assert(after.len() == 0);
        }
        return Option::None;
    }
    if line.get_char(j) != '=' {
        proof {
            assert(after[0] == line@[j as int]);
        }
        return Option::None;
    }
    let mut v0: usize = j + 1;
    while v0 < n && is_space_char(line.get_char(v0))
        invariant
            n == line@.len(),
            j + 1 <= v0 <= n,
            forall|k2: int| j + 1 <= k2 < v0 ==> is_line_space(#[trigger] line@[k2]),
        decreases n - v0,
    {
        v0 = v0 + 1;
    }
    let mut v1: usize = n;
    while v1 > v0 && is_space_char(line.get_char(v1 - 1))
        invariant
            n == line@.len(),
            v0 <= v1 <= n,
            forall|k2: int| v1 <= k2 < n ==> is_line_space(#[trigger] line@[k2]),
        decreases v1,
    {
        v1 = v1 - 1;
    }
    proof {
        assert(after.drop_first() =~= line@.skip(j as int + 1));
        lemma_trim_leading_at(line@.skip(j as int + 1), v0 - (j + 1));
        assert(line@.skip(j as int + 1).skip(v0 - (j + 1)) =~= line@.skip(v0 as int));
        lemma_trim_trailing_at(line@.skip(v0 as int), v1 - v0);
        assert(line@.skip(v0 as int).take(v1 - v0) =~= line@.subrange(v0 as int, v1 as int));
    }
    let value = line.substring_char(v0, v1);
    proof {
        assert(spec_registry_value(line@) == Option::Some(value@));
    }
    Option::Some(value)
}

/// Index of the first newline of `s`, or its length when none occurs.
pub open spec fn line_end(s: Seq<char>) -> int
    decreases s.len(),
{
    if s.len() == 0 {
        0
    } else if s[0] == '\n' {
        0
    } else {
        1 + line_end(s.drop_first())
    }
}

/// `line_end` lies within bounds and marks the first newline.
pub proof fn lemma_line_end_props(s: Seq<char>)
    ensures
        0 <= line_end(s) <= s.len(),
        forall|k: int| 0 <= k < line_end(s) ==> s[k] != '\n',
        line_end(s) < s.len() ==> s[line_end(s)] == '\n',
    decreases s.len(),
{
    if s.len() > 0 && s[0] != '\n' {
        lemma_line_end_props(s.drop_first());
        assert forall|k: int| 0 <= k < line_end(s) implies s[k] != '\n' by {
            if k > 0 {
                assert(s.drop_first()[k - 1] != '\n');
            }
        }
    }
}

/// A position preceded by no newline, and holding one or ending the text,
/// is the line end.
proof fn lemma_line_end_unique(s: Seq<char>, e: int)
    requires
        0 <= e <= s.len(),
        forall|k: int| 0 <= k < e ==> (#[trigger] s[k]) != '\n',
        e < s.len() ==> s[e] == '\n',
    ensures
        line_end(s) == e,
    decreases e,
{
    if e > 0 {
        assert(s[0] != '\n');
        assert forall|k: int| 0 <= k < e - 1 implies (#[trigger] s.drop_first()[k]) != '\n' by {
            assert(s.drop_first()[k] == s[k + 1]);
        }
        lemma_line_end_unique(s.drop_first(), e - 1);
    }
}

/// The registry URL that `content` sets: the value of its first assignment
/// line whose value is non-empty, if any.
pub open spec fn spec_find_registry_url(content: Seq<char>) -> Option<Seq<char>>
    decreases content.len() via spec_find_registry_url_decreases
{
    let e = line_end(content);
    let line = content.take(e);
    match spec_registry_value(line) {
        Option::Some(v) => if v.len() > 0 {
            Option::Some(v)
        } else if e < content.len() {
            spec_find_registry_url(content.skip(e + 1))
        } else {
            Option::None
        },
        Option::None => if e < content.len() {
            spec_find_registry_url(content.skip(e + 1))
        } else {
            Option::None
        },
    }
}

#[via_fn]
proof fn spec_find_registry_url_decreases(content: Seq<char>) {
    lemma_line_end_props(content);
}

/// The assignment line written for `url`.
pub open spec fn registry_assignment(url: Seq<char>) -> Seq<char> {
    registry_keyword() + seq!['='] + url
}

/// `content` with every registry assignment line replaced whole by
/// `new_line`; all other lines, and the line separators, stand unchanged.
pub open spec fn spec_set_registry(content: Seq<char>, new_line: Seq<char>) -> Seq<char>
    decreases content.len() via spec_set_registry_decreases
{
    let e = line_end(content);
    let line = content.take(e);
    let repl = if spec_registry_value(line) is Some {
        new_line
    } else {
        line
    };
    if e == content.len() {
        repl
    } else {
        repl + seq!['\n'] + spec_set_registry(content.skip(e + 1), new_line)
    }
}

#[via_fn]
proof fn spec_set_registry_decreases(content: Seq<char>, new_line: Seq<char>) {
    lemma_line_end_props(content);
}

/// The index of the first newline at or after `from`, or the text's length.
fn find_newline(s: &str, from: usize) -> (e: usize)
    requires
        from <= s@.len(),
    ensures
        from <= e <= s@.len(),
        forall|k: int| from <= k < e ==> (#[trigger] s@[k]) != '\n',
        e < s@.len() ==> s@[e as int] == '\n',
{
    let n = s.unicode_len();
    let mut e = from;
    while e < n && s.get_char(e) != '\n'
        invariant
            n == s@.len(),
            from <= e <= n,
            forall|k: int| from <= k < e ==> (#[trigger] s@[k]) != '\n',
        decreases n - e,
    {
        e = e + 1;
    }
    e
}

/// Read which registry URL `content` sets, if any.
pub fn find_registry_url(content: &str) -> (r: Option<String>)
    ensures
        match r {
            Option::Some(u) => spec_find_registry_url(content@) == Option::Some(u@),
            Option::None => spec_find_registry_url(content@) is None,
        },
{
    let n = content.unicode_len();
    let mut pos: usize = 0;
    proof {
        assert(content@.skip(0) =~= content@);
    }
    while pos <= n
        invariant
            n == content@.len(),
            pos <= n,
            spec_find_registry_url(content@) == spec_find_registry_url(
                content@.skip(pos as int),
            ),
        decreases n - pos,
    {
        let e = find_newline(content, pos);
        let line = content.substring_char(pos, e);
        let ghost rest = content@.skip(pos as int);
        proof {
            assert forall|k: int| 0 <= k < e - pos implies (#[trigger] rest[k]) != '\n' by {
                assert(rest[k] == content@[pos + k]);
            }
            lemma_line_end_unique(rest, e - pos);
            assert(rest.take(e - pos) =~= line@);
        }
        match line_registry_value(line) {
            Option::Some(v) => {
                if v.unicode_len() > 0 {
                    proof {
                        assert(spec_find_registry_url(rest) == Option::Some(v@));
                    }
                    return Option::Some(String::from_str(v));
                }
            },
            Option::None => {},
        }
        if e == n {
            proof {
                assert(spec_find_registry_url(rest) is None);
            }
            return Option::None;
        }
        proof {
            assert(rest.skip((e - pos) + 1) =~= content@.skip(e as int + 1));
            assert(spec_find_registry_url(rest) == spec_find_registry_url(
                content@.skip(e as int + 1),
            ));
        }
        pos = e + 1;
    }
    Option::None
}

/// Rewrite `content`, replacing every registry assignment line with
/// `registry=<url>`.
pub fn set_registry_line(content: &str, url: &str) -> (r: String)
    ensures
        r@ == spec_set_registry(content@, registry_assignment(url@)),
{
    let ghost new_line = registry_assignment(url@);
    let n = content.unicode_len();
    let mut out = String::new();
    let mut pos: usize = 0;
    proof {
        assert(content@.skip(0) =~= content@);
        assert(out@ + spec_set_registry(content@, new_line) =~= spec_set_registry(
            content@,
            new_line,
        ));
    }
    while pos <= n
        invariant
            n == content@.len(),
            pos <= n,
            new_line == registry_assignment(url@),
            spec_set_registry(content@, new_line) == out@ + spec_set_registry(
                content@.skip(pos as int),
                new_line,
            ),
        decreases n - pos,
    {
        let e = find_newline(content, pos);
        let line = content.substring_char(pos, e);
        let ghost rest = content@.skip(pos as int);
        let ghost out0 = out@;
        proof {
            assert forall|k: int| 0 <= k < e - pos implies (#[trigger] rest[k]) != '\n' by {
                assert(rest[k] == content@[pos + k]);
            }
            lemma_line_end_unique(rest, e - pos);
            assert(rest.take(e - pos) =~= line@);
        }
        let ghost repl = if spec_registry_value(line@) is Some {
            new_line
        } else {
            line@
        };
        match line_registry_value(line) {
            Option::Some(_) => {
                out.append("registry=");
                out.append(url);
                proof {
                    reveal_strlit("registry=");
                    assert("registry="@ =~= registry_keyword() + seq!['=']);
                    assert(out@ =~= out0 + repl);
                }
            },
            Option::None => {
                out.append(line);
                proof {
                    assert(out@ =~= out0 + repl);
                }
            },
        }
        if e == n {
            proof {
                assert(spec_set_registry(rest, new_line) == repl);
            }
            return out;
        }
        out.append("\n");
        proof {
            reveal_strlit("\n");
            assert("\n"@ =~= seq!['\n']);
            assert(rest.skip((e - pos) + 1) =~= content@.skip(e as int + 1));
            assert(spec_set_registry(rest, new_line) == repl + seq!['\n'] + spec_set_registry(
                content@.skip(e as int + 1),
                new_line,
            ));
            assert(out0 + (repl + seq!['\n'] + spec_set_registry(
                content@.skip(e as int + 1),
                new_line,
            )) =~= out@ + spec_set_registry(content@.skip(e as int + 1), new_line));
        }
        pos = e + 1;
    }
    out
}

} // verus!
