//! Character-level helpers on `String`.
use vstd::prelude::*;
use crate::scan::{line_end, lemma_line_end_bounds};

verus! {

/// Calls `String::push`, which appends the character `c` to `s`; the contract
/// states exactly that.
#[verifier::external_body]
pub(crate) fn push_char(s: &mut String, c: char)
    ensures
        final(s)@ == old(s)@.push(c),
{
    s.push(c);
}

/// The characters `src[from..to]` as a `String`.
pub fn chars_to_string(src: &[char], from: usize, to: usize) -> (s: String)
    requires
        from <= to <= src@.len(),
    ensures
        s@ == src@.subrange(from as int, to as int),
{
    let mut s = String::new();
    let mut i = from;
    while i < to
        invariant
            from <= i <= to <= src@.len(),
            s@ == src@.subrange(from as int, i as int),
        decreases to - i,
    {
        push_char(&mut s, src[i]);
        i += 1;
        assert(s@ =~= src@.subrange(from as int, i as int));
    }
    s
}

/// The Unicode `White_Space` characters.
pub open spec fn is_white_space(c: char) -> bool {
    let u = c as u32;
    ||| 0x09 <= u <= 0x0d
    ||| u == 0x20
    ||| u == 0x85
    ||| u == 0xa0
    ||| u == 0x1680
    ||| 0x2000 <= u <= 0x200a
    ||| u == 0x2028
    ||| u == 0x2029
    ||| u == 0x202f
    ||| u == 0x205f
    ||| u == 0x3000
}

/// Whether `c` is a Unicode `White_Space` character.
pub fn white_space(c: char) -> (b: bool)
    ensures
        b == is_white_space(c),
{
    let u = c as u32;
    (0x09 <= u && u <= 0x0d) || u == 0x20 || u == 0x85 || u == 0xa0 || u == 0x1680 || (0x2000
        <= u && u <= 0x200a) || u == 0x2028 || u == 0x2029 || u == 0x202f || u == 0x205f || u
        == 0x3000
}

/// The first position in `[i, to)` not holding white space, or `to`.
pub open spec fn skip_space(s: Seq<char>, i: int, to: int) -> int
    decreases to - i,
{
    if i < to && is_white_space(s[i]) {
        skip_space(s, i + 1, to)
    } else {
        i
    }
}

/// The position just after the last character of `[from, j)` that is not
/// white space, or `from`.
pub open spec fn skip_space_back(s: Seq<char>, from: int, j: int) -> int
    decreases j - from,
{
    if from < j && is_white_space(s[j - 1]) {
        skip_space_back(s, from, j - 1)
    } else {
        j
    }
}

/// `s[from..to]` without leading and trailing white space.
pub open spec fn trim_range(s: Seq<char>, from: int, to: int) -> Seq<char> {
    let a = skip_space(s, from, to);
    s.subrange(a, skip_space_back(s, a, to))
}

/// `s` without leading and trailing white space.
pub open spec fn trim(s: Seq<char>) -> Seq<char> {
    trim_range(s, 0, s.len() as int)
}

/// The lines of `s` from position `i` on, lines being separated by `\n`,
/// each trimmed, the blank ones left out.
pub open spec fn nonblank_lines_from(s: Seq<char>, i: int) -> Seq<Seq<char>>
    decreases s.len() - i,
{
    if 0 <= i <= s.len() {
        let e = line_end(s, i);
        let t = trim_range(s, i, e);
        let rest = if i <= e < s.len() {
            nonblank_lines_from(s, e + 1)
        } else {
            seq![]
        };
        if t.len() > 0 {
            seq![t] + rest
        } else {
            rest
        }
    } else {
        seq![]
    }
}

/// The trimmed, non-blank lines of `s`.
pub open spec fn nonblank_lines(s: Seq<char>) -> Seq<Seq<char>> {
    nonblank_lines_from(s, 0)
}

/// The bounds of `src[from..to]` without its leading and trailing white space.
fn trim_bounds(src: &[char], from: usize, to: usize) -> (r: (usize, usize))
    requires
        from <= to <= src@.len(),
    ensures
        r.0 == skip_space(src@, from as int, to as int),
        r.1 == skip_space_back(src@, r.0 as int, to as int),
        from <= r.0 <= r.1 <= to,
        trim_range(src@, from as int, to as int) == src@.subrange(r.0 as int, r.1 as int),
{
    let mut a = from;
    while a < to && white_space(src[a])
        invariant
            from <= a <= to <= src@.len(),
            skip_space(src@, from as int, to as int) == skip_space(src@, a as int, to as int),
        decreases to - a,
    {
        a += 1;
    }
    let mut b = to;
    while a < b && white_space(src[b - 1])
        invariant
            a <= b <= to <= src@.len(),
            skip_space_back(src@, a as int, to as int) == skip_space_back(src@, a as int, b as int),
        decreases b - a,
    {
        b -= 1;
    }
    (a, b)
}

/// `src[from..to]` without its leading and trailing white space.
pub fn trimmed(src: &[char], from: usize, to: usize) -> (s: String)
    requires
        from <= to <= src@.len(),
    ensures
        s@ == trim_range(src@, from as int, to as int),
{
    let (a, b) = trim_bounds(src, from, to);
    chars_to_string(src, a, b)
}

/// The first trimmed non-blank line of `src`, if any, and whether there is
/// more than one.
pub fn first_nonblank_line(src: &[char]) -> (r: (Option<String>, bool))
    ensures
        match r.0 {
            Some(l) => nonblank_lines(src@).len() > 0 && l@ == nonblank_lines(src@)[0],
            None => nonblank_lines(src@).len() == 0,
        },
        r.1 == (nonblank_lines(src@).len() > 1),
{
    let len = src.len();
    let mut first: Option<(usize, usize)> = None;
    let mut count: usize = 0;
    let mut i: usize = 0;
    let ghost mut seen: Seq<Seq<char>> = seq![];
    let mut done = false;
    while !done
        invariant
            len == src@.len(),
            i <= len,
            seen + (if done {
                seq![]
            } else {
                nonblank_lines_from(src@, i as int)
            }) == nonblank_lines(src@),
            count == seen.len(),
            count <= i,
            match first {
                Some((a, b)) => seen.len() > 0 && a <= b <= len && seen[0] == src@.subrange(
                    a as int,
                    b as int,
                ),
                None => seen.len() == 0,
            },
        decreases len - i + (if done {
            0int
        } else {
            1int
        }),
    {
        let e = line_end_from(src, i);
        proof {
            lemma_line_end_bounds(src@, i as int);
        }
        let (a, b) = trim_bounds(src, i, e);
        let ghost t = src@.subrange(a as int, b as int);
        let ghost rest = if e < len {
            nonblank_lines_from(src@, e + 1)
        } else {
            seq![]
        };
        assert(nonblank_lines_from(src@, i as int) == if t.len() > 0 {
            seq![t] + rest
        } else {
            rest
        });
        if a < b {
            if first.is_none() {
                first = Some((a, b));
            }
            count += 1;
            proof {
                seen = seen.push(t);
            }
        }
        if e < len {
            assert(seen + nonblank_lines_from(src@, e + 1) =~= nonblank_lines(src@));
            i = e + 1;
        } else {
            assert(seen =~= nonblank_lines(src@));
            i = e;
            done = true;
        }
    }
    match first {
        Some((a, b)) => (Some(chars_to_string(src, a, b)), count > 1),
        None => (None, count > 1),
    }
}

/// The end of the line that `start` is on: the first newline at or after
/// it, or the end of `src`.
pub(crate) fn line_end_from(src: &[char], start: usize) -> (e: usize)
    requires
        start <= src@.len(),
    ensures
        e as int == line_end(src@, start as int),
{
    let mut i = start;
    while i < src.len() && src[i] != '\n'
        invariant
            start <= i <= src@.len(),
            line_end(src@, start as int) == line_end(src@, i as int),
        decreases src@.len() - i,
    {
        i += 1;
    }
    i
}

/// The characters of `s`.
pub fn to_chars(s: &str) -> (v: Vec<char>)
    ensures
        v@ == s@,
{
    broadcast use vstd::string::group_string_axioms;

    let mut v: Vec<char> = Vec::new();
    for c in it: s.chars()
        invariant
            it.seq() == s@,
            v@ == it.seq().take(it.index() as int),
    {
        v.push(c);
    }
    v
}

} // verus!
