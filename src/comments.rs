//! The pass before scanning: whole lines whose trimmed text starts with
//! `--` are dropped, the others are kept, each followed by a newline.
use vstd::prelude::*;
use crate::text::{trim, trim_chars};

verus! {

/// Whether a line is a comment: trimmed, it starts with two hyphens.
pub open spec fn is_comment_line(line: Seq<char>) -> bool {
    let t = trim(line);
    t.len() >= 2 && t[0] == '-' && t[1] == '-'
}

/// A line without the carriage return of a `\r\n` ending.
pub open spec fn drop_cr(line: Seq<char>) -> Seq<char> {
    if line.len() > 0 && line.last() == '\r' {
        line.drop_last()
    } else {
        line
    }
}

/// The output with one more line: nothing for a comment, else the line and
/// a newline.
pub open spec fn keep_line(out: Seq<char>, line: Seq<char>) -> Seq<char> {
    if is_comment_line(line) {
        out
    } else {
        out + line + seq!['\n']
    }
}

/// The filter's state after reading `s`: the output so far and the
/// unfinished line.
pub open spec fn filter_state(s: Seq<char>) -> (Seq<char>, Seq<char>)
    decreases s.len(),
{
    if s.len() == 0 {
        (Seq::empty(), Seq::empty())
    } else {
        let (out, line) = filter_state(s.drop_last());
        if s.last() == '\n' {
            (keep_line(out, drop_cr(line)), Seq::empty())
        } else {
            (out, line.push(s.last()))
        }
    }
}

/// `s` without its comment lines. Lines end at `\n` or `\r\n`; a last line
/// without a line ending counts when it is not empty.
pub open spec fn strip_comments(s: Seq<char>) -> Seq<char> {
    let (out, line) = filter_state(s);
    if line.len() == 0 {
        out
    } else {
        keep_line(out, line)
    }
}

proof fn lemma_filter_state_append(a: Seq<char>, t: Seq<char>)
    requires
        filter_state(a).1.len() == 0,
    ensures
        filter_state(a + t) == (filter_state(a).0 + filter_state(t).0, filter_state(t).1),
    decreases t.len(),
{
    if t.len() == 0 {
        assert(a + t =~= a);
        assert(filter_state(a).0 + Seq::<char>::empty() =~= filter_state(a).0);
    } else {
        lemma_filter_state_append(a, t.drop_last());
        assert((a + t).drop_last() =~= a + t.drop_last());
        let o = filter_state(a).0;
        let (p, line) = filter_state(t.drop_last());
        let l = drop_cr(line);
        if !is_comment_line(l) {
            assert(o + p + l + seq!['\n'] =~= o + (p + l + seq!['\n']));
        }
    }
}

proof fn lemma_filter_state_one_line(l: Seq<char>)
    requires
        forall|i: int| 0 <= i < l.len() ==> l[i] != '\n',
    ensures
        filter_state(l) == (Seq::<char>::empty(), l),
    decreases l.len(),
{
    if l.len() > 0 {
        lemma_filter_state_one_line(l.drop_last());
        assert(l.drop_last().push(l.last()) =~= l);
    }
}

/// A comment line, with its line ending, leaves no trace: dropping it from
/// the text, where it starts a line, changes nothing of what the filter
/// hands on.
pub proof fn lemma_comment_line_dropped(a: Seq<char>, l: Seq<char>, b: Seq<char>)
    requires
        a.len() == 0 || a.last() == '\n',
        forall|i: int| 0 <= i < l.len() ==> l[i] != '\n',
        is_comment_line(l),
    ensures
        strip_comments(a + l + seq!['\n'] + b) == strip_comments(a + b),
{
    if a.len() > 0 {
        assert(a.drop_last().push(a.last()) =~= a);
    }
    lemma_filter_state_one_line(l);
    if l.len() > 0 && l.last() == '\r' {
        assert(crate::text::trim_end(l) == crate::text::trim_end(l.drop_last()));
    }
    let lc = l + seq!['\n'];
    assert(lc.drop_last() =~= l);
    assert(filter_state(lc) == (Seq::<char>::empty(), Seq::<char>::empty()));
    lemma_filter_state_append(lc, b);
    assert(Seq::<char>::empty() + filter_state(b).0 =~= filter_state(b).0);
    lemma_filter_state_append(a, lc + b);
    lemma_filter_state_append(a, b);
    assert(a + l + seq!['\n'] + b =~= a + (lc + b));
}

/// Whether `s[i..j]` is a whole line of `s`: it starts the text or follows a
/// newline, ends the text or stands before a newline, and holds no newline.
pub open spec fn is_line_at(s: Seq<char>, i: int, j: int) -> bool {
    &&& 0 <= i <= j <= s.len()
    &&& (i == 0 || s[i - 1] == '\n')
    &&& (j == s.len() || s[j] == '\n')
    &&& forall|k: int| i <= k < j ==> s[k] != '\n'
}

/// Whether some line of `s` is a comment.
pub open spec fn has_comment_line(s: Seq<char>) -> bool {
    exists|i: int, j: int| is_line_at(s, i, j) && is_comment_line(#[trigger] s.subrange(i, j))
}

/// Without carriage returns, and with no finished line a comment, the filter
/// hands on the text as it is, the unfinished line held back.
pub proof fn lemma_filter_keeps_plain_text(s: Seq<char>)
    requires
        forall|k: int| 0 <= k < s.len() ==> s[k] != '\r',
        forall|i: int, j: int|
            is_line_at(s, i, j) && j < s.len() ==> !is_comment_line(#[trigger] s.subrange(i, j)),
    ensures
        filter_state(s).0 + filter_state(s).1 == s,
        is_line_at(s, s.len() - filter_state(s).1.len(), s.len() as int),
    decreases s.len(),
{
    if s.len() == 0 {
        assert(Seq::<char>::empty() + Seq::<char>::empty() =~= s);
    } else {
        let p = s.drop_last();
        assert forall|k: int| 0 <= k < p.len() implies #[trigger] s[k] == p[k] by {}
        assert forall|i: int, j: int|
            is_line_at(p, i, j) && j < p.len() implies !is_comment_line(
            #[trigger] p.subrange(i, j),
        ) by {
            assert(p.subrange(i, j) =~= s.subrange(i, j));
            assert(is_line_at(s, i, j));
        }
        lemma_filter_keeps_plain_text(p);
        let (out, line) = filter_state(p);
        let st = p.len() - line.len();
        assert(line =~= p.subrange(st, p.len() as int));
        if s.last() == '\n' {
            assert(drop_cr(line) == line);
            assert(line =~= s.subrange(st, p.len() as int));
            assert(is_line_at(s, st, p.len() as int));
            assert(out + line + seq!['\n'] =~= s);
            assert(Seq::<char>::empty().len() == 0);
        } else {
            assert(out + line.push(s.last()) =~= s);
        }
    }
}

/// Whether a line is a comment.
pub fn is_comment(line: &Vec<char>) -> (r: bool)
    ensures
        r == is_comment_line(line@),
{
    let t = trim_chars(line);
    t.len() >= 2 && t[0] == '-' && t[1] == '-'
}

fn push_line(out: &mut Vec<char>, line: &Vec<char>)
    ensures
        final(out)@ == keep_line(old(out)@, line@),
{
    if !is_comment(line) {
        let mut i: usize = 0;
        while i < line.len()
            invariant
                i <= line.len(),
                out@ == old(out)@ + line@.take(i as int),
            decreases line.len() - i,
        {
            out.push(line[i]);
            i = i + 1;
            assert(line@.take(i as int) =~= line@.take(i - 1).push(line@[i - 1]));
        }
        out.push('\n');
        assert(line@.take(line.len() as int) =~= line@);
    }
}

/// Drops the comment lines of `s`.
pub fn without_comments(s: &Vec<char>) -> (r: Vec<char>)
    ensures
        r@ == strip_comments(s@),
{
    let mut out: Vec<char> = Vec::new();
    let mut line: Vec<char> = Vec::new();
    let mut i: usize = 0;
    while i < s.len()
        invariant
            i <= s.len(),
            (out@, line@) == filter_state(s@.take(i as int)),
        decreases s.len() - i,
    {
        let c = s[i];
        if c == '\n' {
            if line.len() > 0 && line[line.len() - 1] == '\r' {
                line.pop();
            }
            push_line(&mut out, &line);
            line = Vec::new();
        } else {
            line.push(c);
        }
        i = i + 1;
        assert(s@.take(i as int).drop_last() =~= s@.take(i - 1));
    }
    assert(s@.take(s.len() as int) =~= s@);
    if line.len() > 0 {
        push_line(&mut out, &line);
    }
    out
}

} // verus!
