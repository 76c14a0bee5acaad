//! Plain-text helpers: character search, string equality, and the
//! line-oriented view of a file or response body.
//!
//! A body of text is modelled as a sequence of lines. Splitting follows the
//! usual rule for text files: lines are separated by `'\n'`, a line's single
//! trailing `'\r'` is dropped, and a final empty segment after the last
//! separator is not a line. Joining writes the lines back separated by
//! `'\n'`, with no trailing separator.

use vstd::prelude::*;
use vstd::string::StrSliceExecFns;
use vstd::string::StringExecFns;

verus! {

/// Index of the first occurrence of `c` in `s`, or `s.len()` if absent.
pub open spec fn find_char(s: Seq<char>, c: char) -> int
    decreases s.len(),
{
    if s.len() == 0 {
        0
    } else if s[0] == c {
        0
    } else {
        1 + find_char(s.drop_first(), c)
    }
}

pub proof fn lemma_find_char(s: Seq<char>, c: char)
    ensures
        0 <= find_char(s, c) <= s.len(),
        forall|j: int| 0 <= j < find_char(s, c) ==> s[j] != c,
        find_char(s, c) < s.len() ==> s[find_char(s, c)] == c,
    decreases s.len(),
{
    if s.len() == 0 {
    } else if s[0] == c {
    } else {
        lemma_find_char(s.drop_first(), c);
        assert forall|j: int| 0 <= j < find_char(s, c) implies s[j] != c by {
            if j > 0 {
                assert(s.drop_first()[j - 1] == s[j]);
            }
        }
        if find_char(s, c) < s.len() {
            assert(s.drop_first()[find_char(s, c) - 1] == s[find_char(s, c)]);
        }
    }
}

/// True executable string equality, stated over the views.
pub fn str_eq(a: &str, b: &str) -> (r: bool)
    ensures
        r == (a@ == b@),
{
    let alen = a.unicode_len();
    let blen = b.unicode_len();
    if alen != blen {
        return false;
    }
    let mut i: usize = 0;
    while i < alen
        invariant
            i <= alen,
            forall|j: int| 0 <= j < i ==> a@[j] == b@[j],
        decreases alen - i,
    {
        if a.get_char(i) != b.get_char(i) {
            return false;
        }
        i += 1;
    }
    proof {
        assert(a@ =~= b@);
    }
    true
}

/// A line with a single trailing carriage return removed.
pub open spec fn strip_cr(l: Seq<char>) -> Seq<char> {
    if l.len() > 0 && l[l.len() - 1] == '\r' {
        l.drop_last()
    } else {
        l
    }
}

/// The sequence of lines of `s`: split on `'\n'`, each line's trailing
/// `'\r'` dropped, and no empty line after a final separator.
pub open spec fn lines_spec(s: Seq<char>) -> Seq<Seq<char>>
    decreases s.len(),
{
    if s.len() == 0 {
        Seq::empty()
    } else {
        let c = find_char(s, '\n');
        if 0 <= c < s.len() {
            seq![strip_cr(s.take(c))] + lines_spec(s.skip(c + 1))
        } else {
            seq![strip_cr(s)]
        }
    }
}

/// The lines joined back into one text, separated by `'\n'`.
pub open spec fn join_spec(ls: Seq<Seq<char>>) -> Seq<char>
    decreases ls.len(),
{
    if ls.len() == 0 {
        Seq::empty()
    } else if ls.len() == 1 {
        ls[0]
    } else {
        ls[0] + seq!['\n'] + join_spec(ls.drop_first())
    }
}

pub proof fn lemma_join_push(ls: Seq<Seq<char>>, x: Seq<char>)
    requires
        ls.len() > 0,
    ensures
        join_spec(ls.push(x)) == join_spec(ls) + seq!['\n'] + x,
    decreases ls.len(),
{
    if ls.len() == 1 {
        assert(ls.push(x).drop_first() =~= seq![x]);
        assert(join_spec(seq![x]) == x);
        assert(join_spec(ls.push(x)) == ls.push(x)[0] + seq!['\n'] + join_spec(
            ls.push(x).drop_first(),
        ));
        assert(join_spec(ls.push(x)) =~= ls[0] + seq!['\n'] + x);
    } else {
        assert(ls.push(x).drop_first() =~= ls.drop_first().push(x));
        lemma_join_push(ls.drop_first(), x);
        assert(join_spec(ls.push(x)) == ls.push(x)[0] + seq!['\n'] + join_spec(
            ls.push(x).drop_first(),
        ));
        assert(join_spec(ls) == ls[0] + seq!['\n'] + join_spec(ls.drop_first()));
        assert(join_spec(ls.push(x)) =~= join_spec(ls) + seq!['\n'] + x);
    }
}

/// Splits a text into its lines.
pub fn split_lines(s: &str) -> (r: Vec<String>)
    ensures
        r.deep_view() == lines_spec(s@),
{
    let n = s.unicode_len();
    let mut out: Vec<String> = Vec::new();
    let mut pos: usize = 0;
    proof {
        assert(s@.skip(0) =~= s@);
        assert(out.deep_view() =~= Seq::<Seq<char>>::empty());
    }
    while pos < n
        invariant
            pos <= n,
            lines_spec(s@) == out.deep_view() + lines_spec(s@.skip(pos as int)),
        decreases n - pos,
    {
        let ghost oldpos = pos as int;
        let ghost suffix = s@.skip(oldpos);
        let mut j: usize = pos;
        while j < n && s.get_char(j) != '\n'
            invariant
                pos <= j <= n,
                forall|k: int| pos <= k < j ==> s@[k] != '\n',
            decreases n - j,
        {
            j += 1;
        }
        proof {
            lemma_find_char(suffix, '\n');
            assert forall|k: int| 0 <= k < j - oldpos implies suffix[k] != '\n' by {
                assert(suffix[k] == s@[oldpos + k]);
            }
            if (j as int) < n {
                assert(suffix[j - oldpos] == s@[j as int]);
            }
            assert(find_char(suffix, '\n') == j - oldpos);
        }
        let mut end: usize = j;
        if end > pos && s.get_char(end - 1) == '\r' {
            end -= 1;
        }
        let piece = s.substring_char(pos, end);
        let line = String::from_str(piece);
        let ghost before = out.deep_view();
        out.push(line);
        proof {
            let c = j - oldpos;
            assert(out.deep_view() =~= before.push(s@.subrange(oldpos, end as int)));
            if (j as int) < n {
                // an inner line: the piece runs up to the separator
                assert(suffix.take(c) =~= s@.subrange(oldpos, j as int));
                assert(strip_cr(suffix.take(c)) =~= s@.subrange(oldpos, end as int));
                assert(suffix.skip(c + 1) =~= s@.skip(j + 1));
                assert(lines_spec(suffix) == seq![strip_cr(suffix.take(c))] + lines_spec(
                    suffix.skip(c + 1),
                ));
                assert(out.deep_view() + lines_spec(s@.skip(j + 1)) =~= before + lines_spec(
                    suffix,
                ));
            } else {
                // the last line: no separator follows
                assert(suffix =~= s@.subrange(oldpos, n as int));
                assert(strip_cr(suffix) =~= s@.subrange(oldpos, end as int));
                assert(lines_spec(suffix) == seq![strip_cr(suffix)]);
                assert(s@.skip(n as int) =~= Seq::<char>::empty());
                assert(out.deep_view() + lines_spec(s@.skip(n as int)) =~= before + lines_spec(
                    suffix,
                ));
            }
        }
        if j < n {
            pos = j + 1;
        } else {
            pos = n;
        }
    }
    proof {
        assert(s@.skip(n as int) =~= Seq::<char>::empty());
        assert(lines_spec(s@) =~= out.deep_view());
    }
    out
}

/// Joins lines into one text with `'\n'` between them.
pub fn join_lines(lines: &Vec<String>) -> (r: String)
    ensures
        r@ == join_spec(lines.deep_view()),
{
    let mut out = String::new();
    let mut i: usize = 0;
    while i < lines.len()
        invariant
            i <= lines.len(),
            i == 0 ==> out@ == Seq::<char>::empty(),
            i > 0 ==> out@ == join_spec(lines.deep_view().take(i as int)),
        decreases lines.len() - i,
    {
        let ghost dv = lines.deep_view();
        if i > 0 {
            out.append("\n");
            proof {
                reveal_strlit("\n");
                assert("\n"@ =~= seq!['\n']);
            }
        }
        out.append(lines[i].as_str());
        proof {
            assert(dv.take(i + 1) =~= dv.take(i as int).push(dv[i as int]));
            if i > 0 {
                lemma_join_push(dv.take(i as int), dv[i as int]);
            } else {
                assert(dv.take(1) =~= seq![dv[0]]);
            }
        }
        i += 1;
    }
    proof {
        if lines.len() > 0 {
            assert(lines.deep_view().take(lines.len() as int) =~= lines.deep_view());
        }
    }
    out
}

} // verus!
