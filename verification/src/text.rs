//! Splitting a fetched body into physical lines and filtering out the
//! blank and comment lines, keeping content lines in their original form.

use vstd::prelude::*;

verus! {

/// The characters that count as whitespace when a line is trimmed:
/// the Unicode `White_Space` set.
pub open spec fn is_space(c: char) -> bool {
    c == ' ' || c == '\t' || c == '\n' || c == '\r' || (c as u32) == 0x0B || (c as u32) == 0x0C
        || (c as u32) == 0x85 || (c as u32) == 0xA0 || (c as u32) == 0x1680 || (0x2000 <= (c
        as u32) && (c as u32) <= 0x200A) || (c as u32) == 0x2028 || (c as u32) == 0x2029 || (c
        as u32) == 0x202F || (c as u32) == 0x205F || (c as u32) == 0x3000
}

/// Decides whether a character is whitespace for trimming purposes.
pub fn is_space_char(c: char) -> (r: bool)
    ensures
        r == is_space(c),
{
    let n = c as u32;
    n == 0x20 || n == 0x09 || n == 0x0A || n == 0x0D || n == 0x0B || n == 0x0C || n == 0x85 || n
        == 0xA0 || n == 0x1680 || (0x2000 <= n && n <= 0x200A) || n == 0x2028 || n == 0x2029 || n
        == 0x202F || n == 0x205F || n == 0x3000
}

/// The sequence with its leading whitespace removed.
pub open spec fn trim_front(s: Seq<char>) -> Seq<char>
    decreases s.len(),
{
    if s.len() > 0 && is_space(s[0]) {
        trim_front(s.drop_first())
    } else {
        s
    }
}

/// The sequence with its trailing whitespace removed.
pub open spec fn trim_back(s: Seq<char>) -> Seq<char>
    decreases s.len(),
{
    if s.len() > 0 && is_space(s.last()) {
        trim_back(s.drop_last())
    } else {
        s
    }
}

/// The sequence with whitespace removed from both ends.
pub open spec fn trimmed(s: Seq<char>) -> Seq<char> {
    trim_back(trim_front(s))
}

/// A line is kept exactly when its trimmed form is non-empty and does not
/// begin with the comment character `#`.
pub open spec fn keep_line(l: Seq<char>) -> bool {
    trimmed(l).len() > 0 && trimmed(l)[0] != '#'
}

proof fn lemma_trim_front_all_space(s: Seq<char>)
    requires
        forall|k: int| 0 <= k < s.len() ==> is_space(#[trigger] s[k]),
    ensures
        trim_front(s).len() == 0,
    decreases s.len(),
{
    if s.len() > 0 {
        lemma_trim_front_all_space(s.drop_first());
    }
}

proof fn lemma_trim_front_skip(s: Seq<char>, i: int)
    requires
        0 <= i < s.len(),
        forall|k: int| 0 <= k < i ==> is_space(#[trigger] s[k]),
        !is_space(s[i]),
    ensures
        trim_front(s) == s.subrange(i, s.len() as int),
    decreases i,
{
    if i == 0 {
        assert(s.subrange(0, s.len() as int) =~= s);
    } else {
        let t = s.drop_first();
        lemma_trim_front_skip(t, i - 1);
        assert(t.subrange(i - 1, t.len() as int) =~= s.subrange(i, s.len() as int));
    }
}

proof fn lemma_trim_back_keeps_head(s: Seq<char>)
    requires
        s.len() > 0,
        !is_space(s[0]),
    ensures
        trim_back(s).len() > 0,
        trim_back(s)[0] == s[0],
    decreases s.len(),
{
    if is_space(s.last()) {
        lemma_trim_back_keeps_head(s.drop_last());
    }
}

/// Decides whether a physical line is a content line: non-empty and not a
/// comment once trimmed.
pub fn line_is_kept(l: &str) -> (r: bool)
    ensures
        r == keep_line(l@),
{
    let n = l.unicode_len();
    let mut i: usize = 0;
    while i < n && is_space_char(l.get_char(i))
        invariant
            0 <= i <= n,
            n == l@.len(),
            forall|k: int| 0 <= k < i ==> is_space(#[trigger] l@[k]),
        decreases n - i,
    {
        i = i + 1;
    }
    if i == n {
        proof {
            lemma_trim_front_all_space(l@);
        }
        false
    } else {
        let c = l.get_char(i);
        proof {
            lemma_trim_front_skip(l@, i as int);
            lemma_trim_back_keeps_head(l@.subrange(i as int, l@.len() as int));
        }
        c != '#'
    }
}

/// One trailing carriage return removed, as a line terminated by `\r\n`
/// keeps only the part before the terminator.
pub open spec fn strip_cr(l: Seq<char>) -> Seq<char> {
    if l.len() > 0 && l.last() == '\r' {
        l.drop_last()
    } else {
        l
    }
}

/// The lines of `s` from position `i` on, with `cur` the part of the
/// current line read so far.  Lines are separated by `\n` (a preceding `\r`
/// belongs to the terminator); a final segment is a line only when the text
/// does not end with `\n`.
pub open spec fn lines_from(s: Seq<char>, i: int, cur: Seq<char>) -> Seq<Seq<char>>
    decreases s.len() - i,
{
    if i < 0 || i >= s.len() {
        if s.len() > 0 && s.last() != '\n' {
            seq![cur]
        } else {
            Seq::empty()
        }
    } else if s[i] == '\n' {
        seq![strip_cr(cur)] + lines_from(s, i + 1, Seq::empty())
    } else {
        lines_from(s, i + 1, cur.push(s[i]))
    }
}

/// The physical lines of a text body.
pub open spec fn split_lines(s: Seq<char>) -> Seq<Seq<char>> {
    lines_from(s, 0, Seq::empty())
}

/// Splits a body into its physical lines.
pub fn split_into_lines(s: &str) -> (r: Vec<String>)
    ensures
        r.deep_view() == split_lines(s@),
{
    let n = s.unicode_len();
    let mut r: Vec<String> = Vec::new();
    let mut start: usize = 0;
    let mut i: usize = 0;
    proof {
        assert(s@.subrange(0, 0) =~= Seq::<char>::empty());
        assert(r.deep_view() =~= Seq::<Seq<char>>::empty());
        assert(Seq::<Seq<char>>::empty() + lines_from(s@, 0, Seq::<char>::empty()) =~= lines_from(
            s@,
            0,
            Seq::<char>::empty(),
        ));
    }
    while i < n
        invariant
            0 <= start <= i <= n,
            n == s@.len(),
            forall|k: int| start <= k < i ==> s@[k] != '\n',
            r.deep_view() + lines_from(s@, i as int, s@.subrange(start as int, i as int))
                =~= split_lines(s@),
        decreases n - i,
    {
        let ghost cur = s@.subrange(start as int, i as int);
        let ghost old_dv = r.deep_view();
        let c = s.get_char(i);
        if c == '\n' {
            let line_end = if i > start && s.get_char(i - 1) == '\r' {
                i - 1
            } else {
                i
            };
            let line = s.substring_char(start, line_end);
            r.push(line.to_owned());
            proof {
                if i > start && s@[i as int - 1] == '\r' {
                    assert(cur.last() == s@[i as int - 1]);
                    assert(strip_cr(cur) =~= s@.subrange(start as int, i as int - 1));
                } else {
                    assert(strip_cr(cur) =~= cur);
                }
                assert(r.deep_view() =~= old_dv.push(strip_cr(cur)));
                assert(lines_from(s@, i as int, cur) == seq![strip_cr(cur)] + lines_from(
                    s@,
                    i as int + 1,
                    Seq::empty(),
                ));
                assert(old_dv.push(strip_cr(cur)) + lines_from(s@, i as int + 1, Seq::empty())
                    =~= old_dv + lines_from(s@, i as int, cur));
                assert(s@.subrange(i as int + 1, i as int + 1) =~= Seq::<char>::empty());
            }
            start = i + 1;
        } else {
            proof {
                assert(cur.push(s@[i as int]) =~= s@.subrange(start as int, i as int + 1));
            }
        }
        i = i + 1;
    }
    if n > 0 && s.get_char(n - 1) != '\n' {
        let ghost cur = s@.subrange(start as int, n as int);
        let ghost old_dv = r.deep_view();
        let line = s.substring_char(start, n);
        r.push(line.to_owned());
        proof {
            assert(s@.last() == s@[n as int - 1]);
            assert(lines_from(s@, n as int, cur) == seq![cur]);
            assert(r.deep_view() =~= old_dv.push(cur));
            assert(old_dv.push(cur) =~= old_dv + seq![cur]);
        }
    }
    proof {
        if n == 0 {
            assert(lines_from(s@, 0, Seq::<char>::empty()) == Seq::<Seq<char>>::empty());
            assert(r.deep_view() + Seq::<Seq<char>>::empty() =~= r.deep_view());
        } else if s@.last() == '\n' {
            assert(lines_from(s@, n as int, s@.subrange(start as int, n as int))
                == Seq::<Seq<char>>::empty());
            assert(r.deep_view() + Seq::<Seq<char>>::empty() =~= r.deep_view());
        }
    }
    r
}

/// The subsequence of `ls` made of its content lines, in order and in
/// their original form.
pub open spec fn content_lines(ls: Seq<Seq<char>>) -> Seq<Seq<char>>
    decreases ls.len(),
{
    if ls.len() == 0 {
        Seq::empty()
    } else {
        let rest = content_lines(ls.drop_last());
        if keep_line(ls.last()) {
            rest.push(ls.last())
        } else {
            rest
        }
    }
}

/// Keeps exactly the content lines, in order and in their original form.
pub fn filter_content_lines(lines: Vec<String>) -> (r: Vec<String>)
    ensures
        r.deep_view() == content_lines(lines.deep_view()),
{
    let mut r: Vec<String> = Vec::new();
    let mut i: usize = 0;
    proof {
        assert(lines.deep_view().take(0) =~= Seq::<Seq<char>>::empty());
        assert(r.deep_view() =~= Seq::<Seq<char>>::empty());
    }
    while i < lines.len()
        invariant
            0 <= i <= lines.len(),
            lines.deep_view().len() == lines.len(),
            r.deep_view() == content_lines(lines.deep_view().take(i as int)),
        decreases lines.len() - i,
    {
        let ghost old_dv = r.deep_view();
        let ghost taken = lines.deep_view().take(i as int);
        let kept = line_is_kept(lines[i].as_str());
        if kept {
            let kept_line = lines[i].clone();
            r.push(kept_line);
            proof {
                assert(r.deep_view() =~= old_dv.push(lines.deep_view()[i as int]));
            }
        }
        proof {
            let next = lines.deep_view().take(i as int + 1);
            assert(next.drop_last() =~= taken);
            assert(next.last() == lines.deep_view()[i as int]);
        }
        i = i + 1;
    }
    proof {
        assert(lines.deep_view().take(lines.len() as int) =~= lines.deep_view());
    }
    r
}

/// Splits a fetched body into physical lines and keeps only the content
/// lines: those whose trimmed form is non-empty and not a comment.  Kept
/// lines retain their original untrimmed form and their order in the body.
pub fn process_body(body: &str) -> (r: Vec<String>)
    ensures
        r.deep_view() == content_lines(split_lines(body@)),
{
    let ls = split_into_lines(body);
    filter_content_lines(ls)
}

} // verus!
