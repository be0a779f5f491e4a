//! The block grammar shared by the segmenter and the record builder.
//!
//! A snippet block has this shape, with every region made of whole lines:
//!
//! ```text
//! # identifier/prefix/scope
//!
//! description line(s)
//!
//! ```language-tag
//! body line(s)
//! ```
//! ```
//!
//! The header starts its line with `#` and one space, then one
//! whitespace-free token split at its last two `/` into three nonempty
//! parts. One or more blank lines — here strictly empty lines — separate
//! header from description and description from the opening fence. The
//! description is the run of consecutive nonempty lines there. The body runs to the nearest later
//! line that is exactly three backticks, so consecutive blocks never
//! merge. A block's span reaches from its `#` through that closing fence.
//!
//! The grammar is stated once, as spec functions over the document's
//! character sequence, and the executable scanner is verified against it.

use vstd::prelude::*;

verus! {

/// Whitespace as the grammar knows it: the Unicode white-space characters,
/// the set `char::is_whitespace` accepts. Header tokens and fence language
/// tags may not contain any of these, and blank-line detection uses them.
pub open spec fn is_ws_char(c: char) -> bool {
    let u = c as u32;
    ||| u == 0x9
    ||| u == 0xa
    ||| u == 0xb
    ||| u == 0xc
    ||| u == 0xd
    ||| u == 0x20
    ||| u == 0x85
    ||| u == 0xa0
    ||| u == 0x1680
    ||| (0x2000 <= u && u <= 0x200a)
    ||| u == 0x2028
    ||| u == 0x2029
    ||| u == 0x202f
    ||| u == 0x205f
    ||| u == 0x3000
}

/// Executable twin of [`is_ws_char`].
pub fn is_ws_char_x(c: char) -> (r: bool)
    ensures
        r == is_ws_char(c),
{
    let u = c as u32;
    u == 0x9 || u == 0xa || u == 0xb || u == 0xc || u == 0xd || u == 0x20 || u == 0x85
        || u == 0xa0 || u == 0x1680 || (0x2000 <= u && u <= 0x200a) || u == 0x2028 || u == 0x2029
        || u == 0x202f || u == 0x205f || u == 0x3000
}

/// True when position `i` begins a line of `d`.
pub open spec fn is_line_start(d: Seq<char>, i: int) -> bool {
    i == 0 || d[i - 1] == '\n'
}

/// Index of the newline ending the line that starts at `i`, or `d.len()`
/// when the document ends first.
pub open spec fn line_end(d: Seq<char>, i: int) -> int
    decreases d.len() - i,
{
    if i < 0 || i >= d.len() {
        d.len() as int
    } else if d[i] == '\n' {
        i
    } else {
        line_end(d, i + 1)
    }
}

pub proof fn lemma_line_end(d: Seq<char>, i: int)
    requires
        0 <= i <= d.len(),
    ensures
        i <= line_end(d, i) <= d.len(),
        forall|j: int| i <= j < line_end(d, i) ==> d[j] != '\n',
        line_end(d, i) < d.len() ==> d[line_end(d, i)] == '\n',
    decreases d.len() - i,
{
    if i < d.len() && d[i] != '\n' {
        lemma_line_end(d, i + 1);
    }
}

/// First position at or after `i` that does not hold a newline (the end of
/// a run of blank lines when `i` starts a line), or `d.len()`.
pub open spec fn skip_newlines(d: Seq<char>, i: int) -> int
    decreases d.len() - i,
{
    if 0 <= i < d.len() && d[i] == '\n' {
        skip_newlines(d, i + 1)
    } else {
        i
    }
}

pub proof fn lemma_skip_newlines(d: Seq<char>, i: int)
    requires
        0 <= i <= d.len(),
    ensures
        i <= skip_newlines(d, i) <= d.len(),
        forall|j: int| i <= j < skip_newlines(d, i) ==> d[j] == '\n',
        skip_newlines(d, i) < d.len() ==> d[skip_newlines(d, i)] != '\n',
    decreases d.len() - i,
{
    if 0 <= i < d.len() && d[i] == '\n' {
        lemma_skip_newlines(d, i + 1);
    }
}

/// Walks whole, newline-terminated, nonblank lines from line start `i` and
/// returns the start of the first blank line after them (or `d.len()` when
/// the run ends exactly at the document's end). Returns `None` when the run
/// runs into an unterminated final line.
pub open spec fn nonblank_run_end(d: Seq<char>, i: int) -> Option<int>
    decreases d.len() - i,
{
    if i < 0 || i >= d.len() {
        Some(i)
    } else if d[i] == '\n' {
        Some(i)
    } else if line_end(d, i) >= d.len() {
        None
    } else {
        nonblank_run_end(
            d,
            if line_end(d, i) + 1 > i + 1 {
                line_end(d, i) + 1
            } else {
                i + 1
            },
        )
    }
}

pub proof fn lemma_nonblank_run_end(d: Seq<char>, i: int)
    requires
        0 <= i <= d.len(),
    ensures
        nonblank_run_end(d, i) matches Some(de) ==> i <= de <= d.len(),
    decreases d.len() - i,
{
    if 0 <= i < d.len() && d[i] != '\n' && line_end(d, i) < d.len() {
        lemma_line_end(d, i);
        lemma_nonblank_run_end(d, line_end(d, i) + 1);
    }
}

/// A line that is exactly three backticks: the closing fence.
pub open spec fn is_close_fence_at(d: Seq<char>, i: int) -> bool {
    &&& line_end(d, i) == i + 3
    &&& d[i] == '`'
    &&& d[i + 1] == '`'
    &&& d[i + 2] == '`'
}

/// Start of the first closing-fence line at or after line start `i`, or
/// `None` when no later line is exactly three backticks. This is the
/// non-greedy rule: a body ends at the nearest closing fence.
pub open spec fn find_close_fence(d: Seq<char>, i: int) -> Option<int>
    decreases d.len() - i,
{
    if i < 0 || i >= d.len() {
        None
    } else if is_close_fence_at(d, i) {
        Some(i)
    } else if line_end(d, i) >= d.len() {
        None
    } else {
        find_close_fence(
            d,
            if line_end(d, i) + 1 > i + 1 {
                line_end(d, i) + 1
            } else {
                i + 1
            },
        )
    }
}

pub proof fn lemma_find_close_fence(d: Seq<char>, i: int)
    requires
        0 <= i <= d.len(),
    ensures
        find_close_fence(d, i) matches Some(cs) ==> i <= cs && cs + 3 <= d.len()
            && is_close_fence_at(d, cs),
    decreases d.len() - i,
{
    if 0 <= i < d.len() {
        lemma_line_end(d, i);
        if is_close_fence_at(d, i) {
        } else if line_end(d, i) < d.len() {
            lemma_find_close_fence(d, line_end(d, i) + 1);
        }
    }
}

/// Index of the last `/` of `t` at an index below `bound`, or `-1`.
pub open spec fn last_slash_before(t: Seq<char>, bound: int) -> int
    decreases bound,
{
    if bound <= 0 || bound > t.len() {
        -1
    } else if t[bound - 1] == '/' {
        bound - 1
    } else {
        last_slash_before(t, bound - 1)
    }
}

pub proof fn lemma_last_slash_before(t: Seq<char>, bound: int)
    requires
        0 <= bound <= t.len(),
    ensures
        -1 <= last_slash_before(t, bound) < bound || last_slash_before(t, bound) == -1,
        last_slash_before(t, bound) >= 0 ==> t[last_slash_before(t, bound)] == '/',
    decreases bound,
{
    if bound > 0 && t[bound - 1] != '/' {
        lemma_last_slash_before(t, bound - 1);
    }
}

/// The three header tokens, as character sequences.
pub struct HeaderFields {
    pub id: Seq<char>,
    pub prefix: Seq<char>,
    pub scope: Seq<char>,
}

/// Parses a header line `# identifier/prefix/scope`: a `#`, exactly one
/// space, then a single whitespace-free token filling the rest of the line,
/// split at its last two `/` into three nonempty parts. The identifier may
/// itself contain further `/`; prefix and scope cannot.
pub open spec fn parse_header(line: Seq<char>) -> Option<HeaderFields> {
    if line.len() > 2 && line[0] == '#' && line[1] == ' ' && (forall|j: int|
        2 <= j < line.len() ==> !is_ws_char(line[j]))  {
        let t = line.subrange(2, line.len() as int);
        let q = last_slash_before(t, t.len() - 1);
        let p = last_slash_before(t, q - 1);
        if q >= 0 && p >= 1 {
            Some(
                HeaderFields {
                    id: t.subrange(0, p),
                    prefix: t.subrange(p + 1, q),
                    scope: t.subrange(q + 1, t.len() as int),
                },
            )
        } else {
            None
        }
    } else {
        None
    }
}

/// An opening fence line: three backticks, then an optional whitespace-free
/// language tag filling the rest of the line.
pub open spec fn is_open_fence_line(line: Seq<char>) -> bool {
    &&& line.len() >= 3
    &&& line[0] == '`'
    &&& line[1] == '`'
    &&& line[2] == '`'
    &&& forall|j: int| 3 <= j < line.len() ==> !is_ws_char(line[j])
}

/// One parsed snippet block: its span `[start, end)` in the document and
/// the raw captures the record builder consumes. The description and body
/// captures keep each line's terminating newline.
pub struct Block {
    pub start: int,
    pub end: int,
    pub id: Seq<char>,
    pub prefix: Seq<char>,
    pub scope: Seq<char>,
    pub description: Seq<char>,
    pub body: Seq<char>,
}

/// The block starting at line start `h` of `d`, when the grammar matches
/// there; `None` otherwise. Every boundary is forced, so the parse is a
/// function of `d` and `h`:
/// the description starts at the first nonblank line after the header's
/// blank lines and ends at the next blank line; the opening fence is the
/// first nonblank line after that; the body ends at the nearest line that
/// is exactly three backticks and must hold at least one character.
pub open spec fn parse_block_at(d: Seq<char>, h: int) -> Option<Block> {
    if !(0 <= h < d.len() && is_line_start(d, h)) {
        None
    } else {
        let he = line_end(d, h);
        match parse_header(d.subrange(h, he)) {
            None => None,
            Some(hf) => {
                if he + 1 < d.len() && d[he + 1] == '\n' {
                    let ds = skip_newlines(d, he + 1);
                    if ds < d.len() {
                        match nonblank_run_end(d, ds) {
                            None => None,
                            Some(de) => {
                                if de < d.len() {
                                    let fs = skip_newlines(d, de);
                                    if fs < d.len() {
                                        let fe = line_end(d, fs);
                                        if fe < d.len() && is_open_fence_line(
                                            d.subrange(fs, fe),
                                        ) {
                                            match find_close_fence(d, fe + 1) {
                                                None => None,
                                                Some(cs) => {
                                                    if cs > fe + 1 {
                                                        Some(
                                                            Block {
                                                                start: h,
                                                                end: cs + 3,
                                                                id: hf.id,
                                                                prefix: hf.prefix,
                                                                scope: hf.scope,
                                                                description: d.subrange(ds, de),
                                                                body: d.subrange(fe + 1, cs),
                                                            },
                                                        )
                                                    } else {
                                                        None
                                                    }
                                                },
                                            }
                                        } else {
                                            None
                                        }
                                    } else {
                                        None
                                    }
                                } else {
                                    None
                                }
                            },
                        }
                    } else {
                        None
                    }
                } else {
                    None
                }
            },
        }
    }
}

pub proof fn lemma_parse_block_at(d: Seq<char>, h: int)
    ensures
        parse_block_at(d, h) matches Some(b) ==> {
            &&& b.start == h
            &&& 0 <= h < b.end <= d.len()
            &&& is_line_start(d, h)
        },
{
    if parse_block_at(d, h) is Some {
        let he = line_end(d, h);
        lemma_line_end(d, h);
        lemma_skip_newlines(d, he + 1);
        let ds = skip_newlines(d, he + 1);
        lemma_nonblank_run_end(d, ds);
        let de = nonblank_run_end(d, ds).unwrap();
        lemma_skip_newlines(d, de);
        let fs = skip_newlines(d, de);
        lemma_line_end(d, fs);
        let fe = line_end(d, fs);
        lemma_find_close_fence(d, fe + 1);
        lemma_line_end(d, find_close_fence(d, fe + 1).unwrap());
    }
}

/// All snippet blocks of `d` at or after position `i`, in document order.
/// The scan resumes right after each block's span, so spans never overlap.
/// (A block's span always ends past its start; the bound in the recursive
/// call only serves the termination measure.)
pub open spec fn blocks_from(d: Seq<char>, i: int) -> Seq<Block>
    decreases d.len() - i,
{
    if i < 0 || i >= d.len() {
        Seq::empty()
    } else {
        match parse_block_at(d, i) {
            Some(b) => seq![b] + blocks_from(
                d,
                if i < b.end <= d.len() {
                    b.end
                } else {
                    i + 1
                },
            ),
            None => blocks_from(d, i + 1),
        }
    }
}

/// The ordered sequence of snippet blocks of document `d`: what the
/// segmenter yields.
pub open spec fn blocks_of(d: Seq<char>) -> Seq<Block> {
    blocks_from(d, 0)
}

proof fn lemma_no_header_no_blocks_from(d: Seq<char>, i: int)
    requires
        forall|j: int| 0 <= j < d.len() && is_line_start(d, j) ==> d[j] != '#',
    ensures
        blocks_from(d, i) =~= Seq::<Block>::empty(),
    decreases d.len() - i,
{
    if 0 <= i < d.len() {
        if parse_block_at(d, i) is Some {
            lemma_line_end(d, i);
            let line = d.subrange(i, line_end(d, i));
            assert(line[0] == d[i]);
            assert(false);
        }
        lemma_no_header_no_blocks_from(d, i + 1);
    }
}

/// A document in which no line starts with `#` holds no snippet block:
/// the segmenter yields the empty sequence.
pub proof fn lemma_no_header_no_blocks(d: Seq<char>)
    requires
        forall|j: int| 0 <= j < d.len() && is_line_start(d, j) ==> d[j] != '#',
    ensures
        blocks_of(d) =~= Seq::<Block>::empty(),
{
    lemma_no_header_no_blocks_from(d, 0);
}

proof fn lemma_blocks_from_ordered(d: Seq<char>, i: int)
    requires
        0 <= i,
    ensures
        forall|k: int|
            0 <= k < blocks_from(d, i).len() ==> i <= (#[trigger] blocks_from(d, i)[k]).start
                < blocks_from(d, i)[k].end <= d.len(),
        forall|k: int|
            0 <= k < blocks_from(d, i).len() - 1 ==> (#[trigger] blocks_from(d, i)[k]).end
                <= blocks_from(d, i)[k + 1].start,
    decreases d.len() - i,
{
    if i < d.len() {
        if parse_block_at(d, i) is Some {
            let b = parse_block_at(d, i).unwrap();
            lemma_parse_block_at(d, i);
            lemma_blocks_from_ordered(d, b.end);
            let rest = blocks_from(d, b.end);
            assert(blocks_from(d, i) =~= seq![b] + rest);
            assert forall|k: int|
                0 <= k < blocks_from(d, i).len() implies i <= (#[trigger] blocks_from(d, i)[k]).start
                < blocks_from(d, i)[k].end <= d.len() by {
                if k > 0 {
                    assert(blocks_from(d, i)[k] == rest[k - 1]);
                }
            }
            assert forall|k: int|
                0 <= k < blocks_from(d, i).len() - 1 implies (#[trigger] blocks_from(d, i)[k]).end
                <= blocks_from(d, i)[k + 1].start by {
                if k > 0 {
                    assert(blocks_from(d, i)[k] == rest[k - 1]);
                    assert(blocks_from(d, i)[k + 1] == rest[k]);
                } else {
                    assert(blocks_from(d, i)[1] == rest[0]);
                }
            }
        } else {
            lemma_blocks_from_ordered(d, i + 1);
            assert(blocks_from(d, i) == blocks_from(d, i + 1));
        }
    }
}

/// The segmenter's blocks come in document order: every span lies inside
/// the document and starts before it ends, and each span ends no later
/// than the next one starts, so spans never overlap or merge.
pub proof fn lemma_blocks_ordered(d: Seq<char>)
    ensures
        forall|k: int|
            0 <= k < blocks_of(d).len() ==> 0 <= (#[trigger] blocks_of(d)[k]).start
                < blocks_of(d)[k].end <= d.len(),
        forall|k: int|
            0 <= k < blocks_of(d).len() - 1 ==> (#[trigger] blocks_of(d)[k]).end <= blocks_of(
                d,
            )[k + 1].start,
{
    lemma_blocks_from_ordered(d, 0);
}

proof fn lemma_line_end_shift(d: Seq<char>, a: int, e: int, i: int)
    requires
        0 <= a <= i <= e <= d.len(),
    ensures
        line_end(d.subrange(a, e), i - a) == (if line_end(d, i) < e {
            line_end(d, i) - a
        } else {
            e - a
        }),
    decreases e - i,
{
    let seg = d.subrange(a, e);
    if i >= e {
        lemma_line_end(d, i);
    } else if d[i] == '\n' {
        assert(seg[i - a] == d[i]);
    } else {
        assert(seg[i - a] == d[i]);
        lemma_line_end_shift(d, a, e, i + 1);
    }
}

proof fn lemma_skip_newlines_shift(d: Seq<char>, a: int, e: int, i: int)
    requires
        0 <= a <= i <= e <= d.len(),
        skip_newlines(d, i) < e,
    ensures
        skip_newlines(d.subrange(a, e), i - a) == skip_newlines(d, i) - a,
    decreases e - i,
{
    lemma_skip_newlines(d, i);
    let seg = d.subrange(a, e);
    if i < d.len() && d[i] == '\n' {
        lemma_skip_newlines(d, i + 1);
        assert(seg[i - a] == d[i]);
        lemma_skip_newlines_shift(d, a, e, i + 1);
    } else {
        assert(seg[i - a] == d[i]);
    }
}

proof fn lemma_nonblank_run_end_shift(d: Seq<char>, a: int, e: int, i: int, de: int)
    requires
        0 <= a <= i <= e <= d.len(),
        nonblank_run_end(d, i) == Some(de),
        de < e,
    ensures
        nonblank_run_end(d.subrange(a, e), i - a) == Some(de - a),
    decreases e - i,
{
    lemma_nonblank_run_end(d, i);
    let seg = d.subrange(a, e);
    if i >= d.len() {
    } else if d[i] == '\n' {
        assert(seg[i - a] == d[i]);
    } else {
        let le = line_end(d, i);
        lemma_line_end(d, i);
        lemma_nonblank_run_end(d, le + 1);
        lemma_line_end_shift(d, a, e, i);
        assert(seg[i - a] == d[i]);
        lemma_nonblank_run_end_shift(d, a, e, le + 1, de);
    }
}

proof fn lemma_find_close_fence_shift(d: Seq<char>, a: int, e: int, i: int, cs: int)
    requires
        0 <= a <= i <= e <= d.len(),
        find_close_fence(d, i) == Some(cs),
        cs + 3 == e,
    ensures
        find_close_fence(d.subrange(a, e), i - a) == Some(cs - a),
    decreases e - i,
{
    lemma_find_close_fence(d, i);
    let seg = d.subrange(a, e);
    lemma_line_end(d, i);
    lemma_line_end_shift(d, a, e, i);
    if is_close_fence_at(d, i) {
        assert(seg[i - a] == d[i]);
        assert(seg[i - a + 1] == d[i + 1]);
        assert(seg[i - a + 2] == d[i + 2]);
        assert(is_close_fence_at(seg, i - a));
    } else {
        let le = line_end(d, i);
        lemma_find_close_fence(d, le + 1);
        // a closing fence cannot appear in the segment where `d` has none:
        // the shifted line has the same end and the same characters
        assert(seg[i - a] == d[i]);
        if le == i + 3 {
            assert(seg[i - a + 1] == d[i + 1]);
            assert(seg[i - a + 2] == d[i + 2]);
        }
        assert(!is_close_fence_at(seg, i - a));
        lemma_find_close_fence_shift(d, a, e, le + 1, cs);
    }
}

/// Every block the scan yields is exactly the parse at its own start.
pub proof fn lemma_blocks_are_parses(d: Seq<char>, i: int)
    requires
        0 <= i,
    ensures
        forall|k: int|
            0 <= k < blocks_from(d, i).len() ==> parse_block_at(
                d,
                (#[trigger] blocks_from(d, i)[k]).start,
            ) == Some(blocks_from(d, i)[k]),
    decreases d.len() - i,
{
    if i < d.len() {
        if parse_block_at(d, i) is Some {
            let b = parse_block_at(d, i).unwrap();
            lemma_parse_block_at(d, i);
            lemma_blocks_are_parses(d, b.end);
            let rest = blocks_from(d, b.end);
            assert(blocks_from(d, i) =~= seq![b] + rest);
            assert forall|k: int|
                0 <= k < blocks_from(d, i).len() implies parse_block_at(
                d,
                (#[trigger] blocks_from(d, i)[k]).start,
            ) == Some(blocks_from(d, i)[k]) by {
                if k > 0 {
                    assert(blocks_from(d, i)[k] == rest[k - 1]);
                }
            }
        } else {
            lemma_blocks_are_parses(d, i + 1);
            assert(blocks_from(d, i) == blocks_from(d, i + 1));
        }
    }
}

/// The grammar is local: a block's parse depends only on the characters of
/// its own span, so the raw segment re-parses, at its start, into a block
/// with the very same captures.
pub proof fn lemma_parse_block_shift(d: Seq<char>, h: int)
    ensures
        parse_block_at(d, h) matches Some(b) ==> {
            let seg = d.subrange(b.start, b.end);
            &&& parse_block_at(seg, 0) is Some
            &&& parse_block_at(seg, 0).unwrap().id == b.id
            &&& parse_block_at(seg, 0).unwrap().prefix == b.prefix
            &&& parse_block_at(seg, 0).unwrap().scope == b.scope
            &&& parse_block_at(seg, 0).unwrap().description == b.description
            &&& parse_block_at(seg, 0).unwrap().body == b.body
            &&& parse_block_at(seg, 0).unwrap().start == 0
            &&& parse_block_at(seg, 0).unwrap().end == b.end - b.start
        },
{
    if parse_block_at(d, h) is Some {
        let b = parse_block_at(d, h).unwrap();
        lemma_parse_block_at(d, h);
        let e = b.end;
        let seg = d.subrange(h, e);
        let he = line_end(d, h);
        lemma_line_end(d, h);
        let ds = skip_newlines(d, he + 1);
        lemma_skip_newlines(d, he + 1);
        let de = nonblank_run_end(d, ds).unwrap();
        lemma_nonblank_run_end(d, ds);
        let fs = skip_newlines(d, de);
        lemma_skip_newlines(d, de);
        let fe = line_end(d, fs);
        lemma_line_end(d, fs);
        let cs = find_close_fence(d, fe + 1).unwrap();
        lemma_find_close_fence(d, fe + 1);
        // every boundary lies inside the span, strictly before its end
        assert(he < ds <= de <= fs <= fe < cs < e);
        lemma_line_end_shift(d, h, e, h);
        assert(seg.subrange(0, he - h) =~= d.subrange(h, he));
        assert(seg[he - h + 1] == d[he + 1]);
        lemma_skip_newlines_shift(d, h, e, he + 1);
        lemma_nonblank_run_end_shift(d, h, e, ds, de);
        lemma_skip_newlines_shift(d, h, e, de);
        lemma_line_end_shift(d, h, e, fs);
        assert(seg.subrange(fs - h, fe - h) =~= d.subrange(fs, fe));
        lemma_find_close_fence_shift(d, h, e, fe + 1, cs);
        assert(seg.subrange(ds - h, de - h) =~= d.subrange(ds, de));
        assert(seg.subrange(fe + 1 - h, cs - h) =~= d.subrange(fe + 1, cs));
        assert(parse_block_at(seg, 0) is Some);
    }
}

/// Executable scan for [`line_end`].
pub fn line_end_x(v: &Vec<char>, i: usize) -> (r: usize)
    requires
        i <= v@.len(),
    ensures
        r as int == line_end(v@, i as int),
{
    let mut j: usize = i;
    while j < v.len() && v[j] != '\n'
        invariant
            i <= j <= v@.len(),
            line_end(v@, i as int) == line_end(v@, j as int),
        decreases v@.len() - j,
    {
        j = j + 1;
    }
    j
}

/// Executable scan for [`skip_newlines`].
pub fn skip_newlines_x(v: &Vec<char>, i: usize) -> (r: usize)
    requires
        i <= v@.len(),
    ensures
        r as int == skip_newlines(v@, i as int),
{
    let mut j: usize = i;
    while j < v.len() && v[j] == '\n'
        invariant
            i <= j <= v@.len(),
            skip_newlines(v@, i as int) == skip_newlines(v@, j as int),
        decreases v@.len() - j,
    {
        j = j + 1;
    }
    j
}

/// Executable scan for [`nonblank_run_end`].
pub fn nonblank_run_end_x(v: &Vec<char>, i: usize) -> (r: Option<usize>)
    requires
        i <= v@.len(),
    ensures
        match r {
            Some(de) => nonblank_run_end(v@, i as int) == Some(de as int),
            None => nonblank_run_end(v@, i as int) is None,
        },
{
    let mut j: usize = i;
    loop
        invariant
            i <= j <= v@.len(),
            nonblank_run_end(v@, i as int) == nonblank_run_end(v@, j as int),
        decreases v@.len() - j,
    {
        if j >= v.len() || v[j] == '\n' {
            return Some(j);
        }
        let le = line_end_x(v, j);
        proof {
            lemma_line_end(v@, j as int);
        }
        if le >= v.len() {
            return None;
        }
        j = le + 1;
    }
}

/// Executable scan for [`find_close_fence`].
pub fn find_close_fence_x(v: &Vec<char>, i: usize) -> (r: Option<usize>)
    requires
        i <= v@.len(),
    ensures
        match r {
            Some(cs) => find_close_fence(v@, i as int) == Some(cs as int),
            None => find_close_fence(v@, i as int) is None,
        },
{
    let mut j: usize = i;
    loop
        invariant
            i <= j <= v@.len(),
            find_close_fence(v@, i as int) == find_close_fence(v@, j as int),
        decreases v@.len() - j,
    {
        if j >= v.len() {
            return None;
        }
        let le = line_end_x(v, j);
        proof {
            lemma_line_end(v@, j as int);
        }
        if le - j == 3 && v[j] == '`' && v[j + 1] == '`' && v[j + 2] == '`' {
            return Some(j);
        }
        if le >= v.len() {
            return None;
        }
        j = le + 1;
    }
}

/// Copies the characters of `v` in `[lo, hi)` into a fresh vector.
pub fn copy_range(v: &Vec<char>, lo: usize, hi: usize) -> (r: Vec<char>)
    requires
        lo <= hi <= v@.len(),
    ensures
        r@ == v@.subrange(lo as int, hi as int),
{
    let mut r: Vec<char> = Vec::new();
    let mut j: usize = lo;
    proof {
        assert(r@ =~= v@.subrange(lo as int, lo as int));
    }
    while j < hi
        invariant
            lo <= j <= hi <= v@.len(),
            r@ == v@.subrange(lo as int, j as int),
        decreases hi - j,
    {
        r.push(v[j]);
        j = j + 1;
        proof {
            assert(r@ =~= v@.subrange(lo as int, j as int));
        }
    }
    r
}

/// Executable scan for [`last_slash_before`]; `None` stands for `-1`.
pub fn last_slash_before_x(t: &Vec<char>, bound: usize) -> (r: Option<usize>)
    requires
        bound <= t@.len(),
    ensures
        match r {
            Some(x) => x as int == last_slash_before(t@, bound as int),
            None => last_slash_before(t@, bound as int) == -1,
        },
{
    let mut j: usize = bound;
    while j > 0
        invariant
            j <= bound <= t@.len(),
            last_slash_before(t@, bound as int) == last_slash_before(t@, j as int),
        decreases j,
    {
        if t[j - 1] == '/' {
            return Some(j - 1);
        }
        j = j - 1;
    }
    None
}

/// Character spans of a parsed header's tokens inside the scanned document.
pub struct HeaderSpans {
    pub id_start: usize,
    pub id_end: usize,
    pub prefix_start: usize,
    pub prefix_end: usize,
    pub scope_start: usize,
    pub scope_end: usize,
}

/// Executable parser for the header line `[hs, he)` of `v`, returning the
/// token spans; agrees with [`parse_header`] on that line.
#[verifier::loop_isolation(false)]
pub fn parse_header_x(v: &Vec<char>, hs: usize, he: usize) -> (r: Option<HeaderSpans>)
    requires
        hs <= he <= v@.len(),
    ensures
        ({
            let oh = parse_header(v@.subrange(hs as int, he as int));
            &&& (r is Some <==> oh is Some)
            &&& (r matches Some(sp) ==> {
                let hf = oh.unwrap();
                &&& hs <= sp.id_start <= sp.id_end <= he
                &&& sp.prefix_start <= sp.prefix_end <= he
                &&& sp.scope_start <= sp.scope_end <= he
                &&& v@.subrange(sp.id_start as int, sp.id_end as int) == hf.id
                &&& v@.subrange(sp.prefix_start as int, sp.prefix_end as int) == hf.prefix
                &&& v@.subrange(sp.scope_start as int, sp.scope_end as int) == hf.scope
            })
        }),
{
    let ghost line = v@.subrange(hs as int, he as int);
    if he - hs <= 2 {
        return None;
    }
    if v[hs] != '#' || v[hs + 1] != ' ' {
        proof {
            assert(line[0] == v@[hs as int]);
            assert(line[1] == v@[hs as int + 1]);
        }
        return None;
    }
    let mut j: usize = hs + 2;
    while j < he
        invariant
            hs + 2 <= j <= he <= v@.len(),
            forall|k: int| hs + 2 <= k < j ==> !is_ws_char(v@[k]),
        decreases he - j,
    {
        if is_ws_char_x(v[j]) {
            proof {
                assert(line[j - hs] == v@[j as int]);
            }
            return None;
        }
        j = j + 1;
    }
    proof {
        assert forall|k: int| 2 <= k < line.len() implies !is_ws_char(line[k]) by {
            assert(line[k] == v@[hs + k]);
        }
    }
    let t = copy_range(v, hs + 2, he);
    proof {
        assert(t@ =~= line.subrange(2, line.len() as int));
    }
    let tlen = t.len();
    let q = match last_slash_before_x(&t, tlen - 1) {
        Some(x) => x,
        None => {
            return None;
        },
    };
    proof {
        lemma_last_slash_before(t@, (tlen - 1) as int);
    }
    if q == 0 {
        return None;
    }
    let p = match last_slash_before_x(&t, q - 1) {
        Some(x) => x,
        None => {
            return None;
        },
    };
    if p < 1 {
        return None;
    }
    proof {
        lemma_last_slash_before(t@, (q - 1) as int);
        assert(parse_header(line).unwrap().id =~= v@.subrange(
            (hs + 2) as int,
            (hs + 2 + p) as int,
        ));
        assert(parse_header(line).unwrap().prefix =~= v@.subrange(
            (hs + 2 + p + 1) as int,
            (hs + 2 + q) as int,
        ));
        assert(parse_header(line).unwrap().scope =~= v@.subrange(
            (hs + 2 + q + 1) as int,
            he as int,
        ));
    }
    Some(
        HeaderSpans {
            id_start: hs + 2,
            id_end: hs + 2 + p,
            prefix_start: hs + 2 + p + 1,
            prefix_end: hs + 2 + q,
            scope_start: hs + 2 + q + 1,
            scope_end: he,
        },
    )
}

/// Character spans of one block's captures inside the scanned document.
pub struct BlockSpans {
    pub start: usize,
    pub end: usize,
    pub header: HeaderSpans,
    pub desc_start: usize,
    pub desc_end: usize,
    pub body_start: usize,
    pub body_end: usize,
}

/// The executable scanner's spans name the same captures as the spec-level
/// block `b` of document `d`.
pub open spec fn spans_match_block(d: Seq<char>, sp: BlockSpans, b: Block) -> bool {
    &&& sp.start as int == b.start
    &&& sp.end as int == b.end
    &&& sp.start <= sp.end <= d.len()
    &&& sp.header.id_start <= sp.header.id_end <= d.len()
    &&& sp.header.prefix_start <= sp.header.prefix_end <= d.len()
    &&& sp.header.scope_start <= sp.header.scope_end <= d.len()
    &&& sp.desc_start <= sp.desc_end <= d.len()
    &&& sp.body_start <= sp.body_end <= d.len()
    &&& d.subrange(sp.header.id_start as int, sp.header.id_end as int) == b.id
    &&& d.subrange(sp.header.prefix_start as int, sp.header.prefix_end as int) == b.prefix
    &&& d.subrange(sp.header.scope_start as int, sp.header.scope_end as int) == b.scope
    &&& d.subrange(sp.desc_start as int, sp.desc_end as int) == b.description
    &&& d.subrange(sp.body_start as int, sp.body_end as int) == b.body
}

/// Executable parser for one block at position `h`; agrees with
/// [`parse_block_at`].
#[verifier::loop_isolation(false)]
pub fn parse_block_x(v: &Vec<char>, h: usize) -> (r: Option<BlockSpans>)
    requires
        h <= v@.len(),
    ensures
        (r is Some <==> parse_block_at(v@, h as int) is Some),
        r matches Some(sp) ==> spans_match_block(v@, sp, parse_block_at(v@, h as int).unwrap()),
{
    if h >= v.len() {
        return None;
    }
    if h > 0 && v[h - 1] != '\n' {
        return None;
    }
    let he = line_end_x(v, h);
    proof {
        lemma_line_end(v@, h as int);
    }
    let hdr = match parse_header_x(v, h, he) {
        Some(x) => x,
        None => {
            return None;
        },
    };
    if v.len() - he < 2 {
        return None;
    }
    if v[he + 1] != '\n' {
        return None;
    }
    let ds = skip_newlines_x(v, he + 1);
    proof {
        lemma_skip_newlines(v@, (he + 1) as int);
    }
    if ds >= v.len() {
        return None;
    }
    let de = match nonblank_run_end_x(v, ds) {
        Some(x) => x,
        None => {
            return None;
        },
    };
    proof {
        lemma_nonblank_run_end(v@, ds as int);
    }
    if de >= v.len() {
        return None;
    }
    let fs = skip_newlines_x(v, de);
    proof {
        lemma_skip_newlines(v@, de as int);
    }
    if fs >= v.len() {
        return None;
    }
    let fe = line_end_x(v, fs);
    proof {
        lemma_line_end(v@, fs as int);
    }
    let ghost fline = v@.subrange(fs as int, fe as int);
    if fe >= v.len() {
        return None;
    }
    if fe - fs < 3 {
        return None;
    }
    if v[fs] != '`' || v[fs + 1] != '`' || v[fs + 2] != '`' {
        proof {
            assert(fline[0] == v@[fs as int]);
            assert(fline[1] == v@[fs as int + 1]);
            assert(fline[2] == v@[fs as int + 2]);
        }
        return None;
    }
    let mut j: usize = fs + 3;
    while j < fe
        invariant
            fs + 3 <= j <= fe <= v@.len(),
            forall|k: int| fs + 3 <= k < j ==> !is_ws_char(v@[k]),
        decreases fe - j,
    {
        if is_ws_char_x(v[j]) {
            proof {
                assert(fline[j - fs] == v@[j as int]);
            }
            return None;
        }
        j = j + 1;
    }
    proof {
        assert forall|k: int| 3 <= k < fline.len() implies !is_ws_char(fline[k]) by {
            assert(fline[k] == v@[fs + k]);
        }
        assert(is_open_fence_line(fline));
    }
    let cs = match find_close_fence_x(v, fe + 1) {
        Some(x) => x,
        None => {
            return None;
        },
    };
    proof {
        lemma_find_close_fence(v@, (fe + 1) as int);
    }
    if cs <= fe + 1 {
        return None;
    }
    Some(
        BlockSpans {
            start: h,
            end: cs + 3,
            header: hdr,
            desc_start: ds,
            desc_end: de,
            body_start: fe + 1,
            body_end: cs,
        },
    )
}

} // verus!
