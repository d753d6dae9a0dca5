//! Locating test data, and reading LibriSpeech transcript files.

use vstd::prelude::*;

use crate::text::{char_is_whitespace, chars_of, is_whitespace, string_of};

verus! {

/// A character that no platform reads as part of a separator, root or
/// prefix: anything but `/`, `\` and `:`.
pub open spec fn is_plain_char(c: char) -> bool {
    c != '/' && c != '\\' && c != ':'
}

/// A relative path component that every platform reads alike: plain
/// characters, and neither `.` nor `..`.
pub open spec fn is_plain_component(s: Seq<char>) -> bool {
    &&& s.len() > 0
    &&& forall|i: int| 0 <= i < s.len() ==> is_plain_char(#[trigger] s[i])
    &&& s != seq!['.']
    &&& s != seq!['.', '.']
}

/// A component `.` or `..` starts at position `i` of `s`.
pub open spec fn dot_component_at(s: Seq<char>, i: int) -> bool {
    &&& i == 0 || s[i - 1] == '/'
    &&& s[i] == '.'
    &&& i + 1 == s.len() || s[i + 1] == '/' || (s[i + 1] == '.' && (i + 2 == s.len() || s[i + 2] == '/'))
}

/// A path of plain components separated by single `/`, possibly starting
/// with `/` (the root), and not ending in `/`: a path that every platform
/// splits into the same components.
pub open spec fn is_plain_path(s: Seq<char>) -> bool {
    &&& s.len() > 0
    &&& s.last() != '/'
    &&& forall|i: int| 0 <= i < s.len() ==> is_plain_char(#[trigger] s[i]) || s[i] == '/'
    &&& forall|i: int| 0 <= i < s.len() - 1 ==> !(#[trigger] s[i] == '/' && s[i + 1] == '/')
    &&& forall|i: int| 0 <= i < s.len() ==> !#[trigger] dot_component_at(s, i)
}

/// The position of the last `/` in `s`, or -1.
pub open spec fn last_slash(s: Seq<char>) -> int
    decreases s.len(),
{
    if s.len() == 0 {
        -1
    } else if s.last() == '/' {
        s.len() - 1
    } else {
        last_slash(s.drop_last())
    }
}

/// A plain path without its final component: what comes before the last
/// `/`, the root `/` for a component right below the root, and the empty
/// path for a single relative component.
pub open spec fn plain_parent(s: Seq<char>) -> Seq<char> {
    let k = last_slash(s);
    if k < 0 {
        Seq::empty()
    } else if k == 0 {
        seq!['/']
    } else {
        s.take(k)
    }
}

/// The parent of a plain path is empty, the root, or a plain path.
proof fn lemma_plain_parent(s: Seq<char>)
    requires
        is_plain_path(s),
    ensures
        plain_parent(s).len() == 0 || plain_parent(s) == seq!['/'] || is_plain_path(plain_parent(s)),
{
    lemma_last_slash(s);
    let k = last_slash(s);
    if k > 0 {
        let p = s.take(k);
        assert(p.last() == s[k - 1]);
        assert(s[k - 1] != '/');
        assert forall|i: int| 0 <= i < p.len() implies is_plain_char(#[trigger] p[i]) || p[i] == '/' by {
            assert(p[i] == s[i]);
        }
        assert forall|i: int| 0 <= i < p.len() - 1 implies !(#[trigger] p[i] == '/' && p[i + 1] == '/') by {
            assert(p[i] == s[i] && p[i + 1] == s[i + 1]);
        }
        assert(s[k] == '/');
        assert forall|i: int| 0 <= i < p.len() implies !#[trigger] dot_component_at(p, i) by {
            assert(!dot_component_at(s, i));
            assert(p[i] == s[i]);
            if i > 0 {
                assert(p[i - 1] == s[i - 1]);
            }
            if i + 1 < k {
                assert(p[i + 1] == s[i + 1]);
            }
            if i + 2 < k {
                assert(p[i + 2] == s[i + 2]);
            }
        }
    }
}

/// The last `/` of `s`: nothing after it is a `/`.
proof fn lemma_last_slash(s: Seq<char>)
    ensures
        -1 <= last_slash(s) < s.len(),
        last_slash(s) >= 0 ==> s[last_slash(s)] == '/',
        forall|i: int| last_slash(s) < i < s.len() ==> s[i] != '/',
    decreases s.len(),
{
    if s.len() > 0 && s.last() != '/' {
        lemma_last_slash(s.drop_last());
        assert forall|i: int| last_slash(s) < i < s.len() implies s[i] != '/' by {
            if i < s.len() - 1 {
                assert(s[i] == s.drop_last()[i]);
            }
        }
        if last_slash(s) >= 0 {
            assert(s[last_slash(s)] == s.drop_last()[last_slash(s)]);
        }
    }
}

/// `std::path::Path::parent` of `path`, as a string: by its documentation the
/// path without its final component, `Some("")` for a single relative
/// component, and none for the empty path. Stated here of the empty path and
/// of plain paths, whose components and separators every platform reads
/// alike; what the parent of any other path is depends on the platform's path
/// syntax, and is not stated.
#[verifier::external_body]
fn path_parent(path: &str) -> (r: Option<String>)
    ensures
        path@.len() == 0 ==> r is None,
        is_plain_path(path@) ==> r is Some && r.unwrap()@ == plain_parent(path@),
{
    std::path::Path::new(path).parent().map(|parent| parent.to_string_lossy().into_owned())
}

/// `component` appended to the empty path, the root `/`, or a plain path:
/// alone, directly after the root, or after one separator (`/` or `\`,
/// whichever the platform writes).
pub open spec fn is_joined(r: Seq<char>, base: Seq<char>, component: Seq<char>) -> bool {
    if base.len() == 0 {
        r == component
    } else if base == seq!['/'] {
        r == base + component
    } else {
        r == base + seq!['/'] + component || r == base + seq!['\\'] + component
    }
}

/// `std::path::Path::join` of `base` and a plain relative component, as a
/// string. The component is appended: for the empty path, the root `/` and
/// plain paths, which every platform reads alike, alone, directly after the
/// root, or after one separator (which one depends on the platform). Of any
/// other base only that the result ends in the component is stated: how such
/// a base reads (a prefix, a verbatim path that is normalized) depends on the
/// platform.
#[verifier::external_body]
fn path_join(base: &str, component: &str) -> (r: String)
    requires
        is_plain_component(component@),
    ensures
        base@.len() == 0 || base@ == seq!['/'] || is_plain_path(base@) ==> is_joined(
            r@,
            base@,
            component@,
        ),
        r@.len() >= component@.len() && r@.skip(r@.len() - component@.len()) == component@,
{
    std::path::Path::new(base).join(component).to_string_lossy().into_owned()
}

/// `test-data`
pub open spec fn test_data_name() -> Seq<char> {
    seq!['t', 'e', 's', 't', '-', 'd', 'a', 't', 'a']
}

/// The directory holding test data: `test-data` beside the crate directory
/// `manifest_dir`, that is its parent joined with `test-data`. There is none
/// when `manifest_dir` has no parent. For a plain path the parent is what
/// comes before its last `/`, and the result that parent, one separator and
/// `test-data` (`test-data` alone when the parent is empty, `/test-data` when
/// it is the root).
pub fn test_data_dir(manifest_dir: &str) -> (r: Option<String>)
    ensures
        manifest_dir@.len() == 0 ==> r is None,
        is_plain_path(manifest_dir@) ==> r is Some && is_joined(
            r.unwrap()@,
            plain_parent(manifest_dir@),
            test_data_name(),
        ),
        r matches Some(dir) ==> dir@.len() >= 9 && dir@.skip(dir@.len() - 9) == test_data_name(),
{
    let name = "test-data";
    proof {
        reveal_strlit("test-data");
        assert(name@ =~= test_data_name());
    }
    match path_parent(manifest_dir) {
        Some(parent) => {
            proof {
                if is_plain_path(manifest_dir@) {
                    lemma_plain_parent(manifest_dir@);
                }
            }
            let dir = path_join(parent.as_str(), name);
            Some(dir)
        },
        None => None,
    }
}

/// A newline ends a line, and a carriage return just before it is dropped;
/// what follows the last newline is a line when it is not empty (the lines of
/// `str::lines`). Returns the ended lines and the unended rest.
pub open spec fn line_pieces(s: Seq<char>) -> (Seq<Seq<char>>, Seq<char>)
    decreases s.len(),
{
    if s.len() == 0 {
        (Seq::empty(), Seq::empty())
    } else {
        let (lines, cur) = line_pieces(s.drop_last());
        if s.last() == '\n' {
            (lines.push(strip_carriage_return(cur)), Seq::empty())
        } else {
            (lines, cur.push(s.last()))
        }
    }
}

/// `line` without one trailing carriage return.
pub open spec fn strip_carriage_return(line: Seq<char>) -> Seq<char> {
    if line.len() > 0 && line.last() == '\r' {
        line.drop_last()
    } else {
        line
    }
}

/// The lines of `s`, as `str::lines` yields them.
pub open spec fn spec_lines(s: Seq<char>) -> Seq<Seq<char>> {
    let (lines, cur) = line_pieces(s);
    if cur.len() > 0 {
        lines.push(cur)
    } else {
        lines
    }
}

/// A line that holds nothing but whitespace (what trims to nothing).
pub open spec fn is_blank(line: Seq<char>) -> bool {
    forall|i: int| 0 <= i < line.len() ==> is_whitespace(#[trigger] line[i])
}

/// The lines that are not blank, in order.
pub open spec fn non_blank(lines: Seq<Seq<char>>) -> Seq<Seq<char>>
    decreases lines.len(),
{
    if lines.len() == 0 {
        lines
    } else if is_blank(lines.last()) {
        non_blank(lines.drop_last())
    } else {
        non_blank(lines.drop_last()).push(lines.last())
    }
}

/// Whether `line` holds nothing but whitespace.
fn blank(line: &Vec<char>, from: usize, to: usize) -> (r: bool)
    requires
        from <= to <= line@.len(),
    ensures
        r == is_blank(line@.subrange(from as int, to as int)),
{
    let mut i = from;
    while i < to
        invariant
            from <= i <= to,
            to <= line@.len(),
            forall|j: int| from <= j < i ==> is_whitespace(#[trigger] line@[j]),
        decreases to - i,
    {
        if !char_is_whitespace(line[i]) {
            assert(line@.subrange(from as int, to as int)[i - from] == line@[i as int]);
            return false;
        }
        i = i + 1;
    }
    assert forall|j: int| 0 <= j < to - from implies is_whitespace(
        #[trigger] line@.subrange(from as int, to as int)[j],
    ) by {
        assert(line@.subrange(from as int, to as int)[j] == line@[j + from]);
    }
    true
}

/// The string views of a sequence of strings.
pub open spec fn line_views(v: Seq<String>) -> Seq<Seq<char>> {
    v.map_values(|l: String| l@)
}

/// Appends `cur[..to]` to `lines` if it is not blank.
fn push_if_not_blank(lines: &mut Vec<String>, cur: &Vec<char>, to: usize)
    requires
        to <= cur@.len(),
    ensures
        line_views(final(lines)@) == if is_blank(cur@.take(to as int)) {
            line_views(old(lines)@)
        } else {
            line_views(old(lines)@).push(cur@.take(to as int))
        },
{
    assert(cur@.subrange(0, to as int) =~= cur@.take(to as int));
    if !blank(cur, 0, to) {
        let line = string_of(cur.as_slice(), 0, to);
        lines.push(line);
        assert(line_views(lines@) =~= line_views(old(lines)@).push(cur@.take(to as int)));
    }
}

/// The lines of a transcript file that are not blank.
pub fn transcript_lines(raw: &str) -> (r: Vec<String>)
    ensures
        line_views(r@) == non_blank(spec_lines(raw@)),
{
    let chars = chars_of(raw);
    let ghost s = chars@;
    let mut lines: Vec<String> = Vec::new();
    let mut cur: Vec<char> = Vec::new();
    let mut i: usize = 0;
    while i < chars.len()
        invariant
            s == chars@,
            i <= s.len(),
            line_views(lines@) == non_blank(line_pieces(s.take(i as int)).0),
            cur@ == line_pieces(s.take(i as int)).1,
        decreases s.len() - i,
    {
        let c = chars[i];
        assert(s.take(i + 1).drop_last() =~= s.take(i as int));
        assert(s.take(i + 1).last() == c);
        if c == '\n' {
            let len = cur.len();
            let to = if len > 0 && cur[len - 1] == '\r' {
                len - 1
            } else {
                len
            };
            assert(cur@.take(to as int) == strip_carriage_return(cur@)) by {
                if to < len {
                    assert(cur@.take(to as int) =~= cur@.drop_last());
                } else {
                    assert(cur@.take(to as int) =~= cur@);
                }
            }
            let ghost prev = line_pieces(s.take(i as int)).0;
            assert(prev.push(cur@.take(to as int)).drop_last() =~= prev);
            push_if_not_blank(&mut lines, &cur, to);
            cur = Vec::new();
        } else {
            cur.push(c);
        }
        i = i + 1;
    }
    assert(s.take(s.len() as int) =~= s);
    let len = cur.len();
    if len > 0 {
        let ghost prev = line_pieces(s).0;
        assert(cur@.take(len as int) =~= cur@);
        assert(prev.push(cur@).drop_last() =~= prev);
        push_if_not_blank(&mut lines, &cur, len);
    }
    lines
}

/// Splits a transcript line at its first space into the utterance id and the
/// text (what `str::split_once(' ')` does).
pub fn parse_transcript_line(line: &str) -> (r: (String, String))
    requires
        line@.contains(' '),
    ensures
        r.0@ + seq![' '] + r.1@ == line@,
        !r.0@.contains(' '),
{
    let chars = chars_of(line);
    let mut i: usize = 0;
    while i < chars.len() && chars[i] != ' '
        invariant
            chars@ == line@,
            i <= chars@.len(),
            forall|j: int| 0 <= j < i ==> chars@[j] != ' ',
        decreases chars@.len() - i,
    {
        i = i + 1;
    }
    if i == chars.len() {
        proof {
            let k = choose|k: int| 0 <= k < line@.len() && line@[k] == ' ';
            assert(chars@[k] != ' ');
        }
    }
    let id = string_of(chars.as_slice(), 0, i);
    let text = string_of(chars.as_slice(), i + 1, chars.len());
    assert(id@ + seq![' '] + text@ =~= line@);
    assert(!id@.contains(' ')) by {
        if id@.contains(' ') {
            let k = choose|k: int| 0 <= k < id@.len() && id@[k] == ' ';
            assert(chars@[k] == ' ');
        }
    }
    (id, text)
}

} // verus!
