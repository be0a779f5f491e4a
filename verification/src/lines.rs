//! Line-level processing shared by the record builder.
//!
//! A raw region capture (description or body) turns into its final field
//! in two steps: the capture splits at every newline into one entry per
//! physical line, and whole trailing blank lines — empty or made of
//! whitespace only — are dropped. A kept line keeps its own trailing
//! spaces; only whole blank lines go. When every line is blank the region
//! still yields a single empty line, never zero lines.

use vstd::prelude::*;

use crate::grammar::{is_ws_char, is_ws_char_x, line_end};
use vstd::string::StrSliceExecFns;
use vstd::string::StringExecFns;

verus! {

/// A blank line: empty, or holding whitespace characters only.
pub open spec fn is_blank_line(l: Seq<char>) -> bool {
    forall|j: int| 0 <= j < l.len() ==> is_ws_char(l[j])
}

/// Executable test for [`is_blank_line`].
pub fn is_blank_str(x: &str) -> (r: bool)
    ensures
        r == is_blank_line(x@),
{
    let n = x.unicode_len();
    let mut i: usize = 0;
    while i < n
        invariant
            i <= n,
            n == x@.len(),
            forall|k: int| 0 <= k < i ==> is_ws_char(x@[k]),
        decreases n - i,
    {
        if !is_ws_char_x(x.get_char(i)) {
            return false;
        }
        i = i + 1;
    }
    true
}

/// The lines of `s` from position `i` on: split at every newline. An empty
/// remainder still contributes one empty line, as splitting does.
pub open spec fn split_lines_from(s: Seq<char>, i: int) -> Seq<Seq<char>>
    decreases s.len() - i,
{
    if !(0 <= i <= s.len()) {
        Seq::empty()
    } else if i == s.len() {
        seq![Seq::<char>::empty()]
    } else {
        let e = line_end(s, i);
        if e >= s.len() {
            seq![s.subrange(i, s.len() as int)]
        } else {
            seq![s.subrange(i, e)] + split_lines_from(
                s,
                if e + 1 > i + 1 {
                    e + 1
                } else {
                    i + 1
                },
            )
        }
    }
}

/// The lines of `s`.
pub open spec fn split_lines(s: Seq<char>) -> Seq<Seq<char>> {
    split_lines_from(s, 0)
}

/// `ls` without its trailing blank lines.
pub open spec fn drop_trailing_blanks(ls: Seq<Seq<char>>) -> Seq<Seq<char>>
    decreases ls.len(),
{
    if ls.len() > 0 && is_blank_line(ls.last()) {
        drop_trailing_blanks(ls.drop_last())
    } else {
        ls
    }
}

pub proof fn lemma_drop_trailing_blanks(ls: Seq<Seq<char>>)
    ensures
        drop_trailing_blanks(ls).len() <= ls.len(),
        drop_trailing_blanks(ls) == ls.take(drop_trailing_blanks(ls).len() as int),
        forall|j: int|
            drop_trailing_blanks(ls).len() <= j < ls.len() ==> is_blank_line(#[trigger] ls[j]),
        drop_trailing_blanks(ls).len() > 0 ==> !is_blank_line(drop_trailing_blanks(ls).last()),
    decreases ls.len(),
{
    if ls.len() > 0 && is_blank_line(ls.last()) {
        lemma_drop_trailing_blanks(ls.drop_last());
        assert(ls.take(drop_trailing_blanks(ls).len() as int) =~= ls.drop_last().take(
            drop_trailing_blanks(ls).len() as int,
        ));
        assert forall|j: int|
            drop_trailing_blanks(ls).len() <= j < ls.len() implies is_blank_line(
            #[trigger] ls[j],
        ) by {
            if j < ls.len() - 1 {
                assert(ls.drop_last()[j] == ls[j]);
            }
        }
    } else {
        assert(ls.take(ls.len() as int) =~= ls);
    }
}

/// What the record builder makes of one raw region capture: one entry per
/// physical line, whole trailing blank lines dropped, and one empty line
/// kept when nothing else remains.
pub open spec fn region_lines(s: Seq<char>) -> Seq<Seq<char>> {
    let kept = drop_trailing_blanks(split_lines(s));
    if kept.len() == 0 {
        seq![Seq::<char>::empty()]
    } else {
        kept
    }
}

/// Only whole trailing blank lines are dropped: what remains is a prefix
/// of the region's physical lines, ending in a nonblank line — so a kept
/// line retains its own trailing spaces — yet an all-blank region still
/// yields exactly one line, the empty one, never zero lines.
pub proof fn lemma_region_lines_trailing(s: Seq<char>)
    ensures
        region_lines(s).len() >= 1,
        drop_trailing_blanks(split_lines(s)).len() > 0 ==> region_lines(s) == split_lines(
            s,
        ).take(region_lines(s).len() as int) && !is_blank_line(region_lines(s).last()),
        is_blank_line(region_lines(s).last()) ==> region_lines(s) =~~= seq![
            Seq::<char>::empty(),
        ],
        (forall|k: int|
            0 <= k < split_lines(s).len() ==> is_blank_line(#[trigger] split_lines(s)[k]))
            ==> region_lines(s) =~~= seq![Seq::<char>::empty()],
{
    lemma_drop_trailing_blanks(split_lines(s));
    let kept = drop_trailing_blanks(split_lines(s));
    if forall|k: int|
        0 <= k < split_lines(s).len() ==> is_blank_line(#[trigger] split_lines(s)[k]) {
        if kept.len() > 0 {
            assert(kept.last() == split_lines(s)[kept.len() as int - 1]);
        }
    }
}

/// The characters of `s`, one vector entry per char.
pub fn str_chars(s: &str) -> (v: Vec<char>)
    ensures
        v@ == s@,
{
    let n = s.unicode_len();
    let mut v: Vec<char> = Vec::new();
    let mut i: usize = 0;
    proof {
        assert(v@ =~= s@.take(0));
    }
    while i < n
        invariant
            i <= n,
            n == s@.len(),
            v@ == s@.take(i as int),
        decreases n - i,
    {
        v.push(s.get_char(i));
        i = i + 1;
        proof {
            assert(v@ =~= s@.take(i as int));
        }
    }
    proof {
        assert(s@.take(n as int) =~= s@);
    }
    v
}

/// One owned string per physical line of `s`.
#[verifier::loop_isolation(false)]
pub fn split_to_lines(s: &str) -> (r: Vec<String>)
    ensures
        r.deep_view() == split_lines(s@),
{
    let v = str_chars(s);
    let mut out: Vec<String> = Vec::new();
    let mut i: usize = 0;
    loop
        invariant
            i <= v@.len(),
            v@ == s@,
            split_lines(s@) =~= out.deep_view() + split_lines_from(s@, i as int),
        decreases v@.len() - i,
    {
        let e = crate::grammar::line_end_x(&v, i);
        proof {
            crate::grammar::lemma_line_end(s@, i as int);
        }
        let line = s.substring_char(i, e);
        proof {
            assert(line@ =~= s@.subrange(i as int, e as int));
        }
        let ghost pre = out.deep_view();
        out.push(String::from_str(line));
        proof {
            assert(out.deep_view() =~= pre.push(line@));
        }
        if e >= v.len() {
            proof {
                if i < s@.len() {
                    assert(s@.subrange(i as int, s@.len() as int) =~= s@.subrange(
                        i as int,
                        e as int,
                    ));
                }
                assert(split_lines_from(s@, i as int) =~~= seq![line@]);
                assert(pre + seq![line@] =~= pre.push(line@));
                assert(out.deep_view() =~= split_lines(s@));
            }
            return out;
        }
        i = e + 1;
        proof {
            assert(pre + (seq![line@] + split_lines_from(s@, i as int)) =~= pre.push(line@)
                + split_lines_from(s@, i as int));
            assert(split_lines(s@) =~= out.deep_view() + split_lines_from(s@, i as int));
        }
    }
}

/// Splits one raw region capture of `s` into its final lines: one owned
/// string per physical line, whole trailing blank lines dropped, one empty
/// line kept when nothing else remains.
#[verifier::loop_isolation(false)]
pub fn region_to_lines(s: &str) -> (r: Vec<String>)
    ensures
        r.deep_view() == region_lines(s@),
{
    let mut out = split_to_lines(s);
    while out.len() > 0 && is_blank_str(out[out.len() - 1].as_str())
        invariant
            drop_trailing_blanks(split_lines(s@)) == drop_trailing_blanks(out.deep_view()),
        decreases out@.len(),
    {
        let ghost pre = out.deep_view();
        proof {
            assert(pre.last() == out@[out@.len() - 1]@);
        }
        out.pop();
        proof {
            assert(out.deep_view() =~= pre.drop_last());
        }
    }
    proof {
        assert(drop_trailing_blanks(out.deep_view()) == out.deep_view());
    }
    if out.len() == 0 {
        out.push(String::new());
        proof {
            assert(out.deep_view() =~~= seq![Seq::<char>::empty()]);
        }
    }
    out
}

} // verus!
