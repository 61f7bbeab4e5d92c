//! Plain-text search through the lines of a file, with context around each hit.
use vstd::prelude::*;
use vstd::string::StringExecFns;

use crate::emission::chars_of;
use crate::emission_group::views_of;

verus! {

/// How many lines of context a section shows on each side of a hit, unless
/// the caller says otherwise.
pub const DEFAULT_DISPLAY_WIDTH: usize = 2;

/// `needle` occurs in `hay` at position `i`.
pub open spec fn occurs_at(hay: Seq<char>, needle: Seq<char>, i: int) -> bool {
    0 <= i && i + needle.len() <= hay.len() && hay.subrange(i, i + needle.len()) == needle
}

/// `needle` occurs somewhere in `hay`.
pub open spec fn contains_text(hay: Seq<char>, needle: Seq<char>) -> bool {
    exists|i: int| occurs_at(hay, needle, i)
}

/// The elements of `parts`, with `sep` between each two.
pub open spec fn joined(parts: Seq<Seq<char>>, sep: Seq<char>) -> Seq<char>
    decreases parts.len(),
{
    if parts.len() == 0 {
        Seq::empty()
    } else if parts.len() == 1 {
        parts[0]
    } else {
        joined(parts.drop_last(), sep) + sep + parts.last()
    }
}

/// The first line a section around line `i` shows: `width` lines back, or
/// the first line.
pub open spec fn section_start(i: int, width: int) -> int {
    if i >= width {
        i - width
    } else {
        0
    }
}

/// One past the last line a section around line `i` of `n` shows: `width`
/// lines on, or the last line.
pub open spec fn section_end(n: int, i: int, width: int) -> int {
    if i + width + 1 <= n {
        i + width + 1
    } else {
        n
    }
}

/// For each of the first `n` lines that contains `phrase`, in order, that
/// line with `width` lines of context on each side, joined by line feeds.
pub open spec fn sections(lines: Seq<Seq<char>>, phrase: Seq<char>, width: int, n: nat) -> Seq<
    Seq<char>,
>
    decreases n,
{
    if n == 0 {
        Seq::empty()
    } else {
        let i = n - 1;
        let before = sections(lines, phrase, width, (n - 1) as nat);
        if contains_text(lines[i], phrase) {
            before.push(
                joined(
                    lines.subrange(section_start(i, width), section_end(lines.len() as int, i, width)),
                    seq!['\n'],
                ),
            )
        } else {
            before
        }
    }
}

/// Whether `phrase` occurs in `line`.
pub fn line_contains(line: &String, phrase: &String) -> (r: bool)
    ensures
        r == contains_text(line@, phrase@),
{
    let hay = chars_of(line.as_str());
    let needle = chars_of(phrase.as_str());
    if needle.len() > hay.len() {
        return false;
    }
    let last = hay.len() - needle.len();
    let mut i: usize = 0;
    while i <= last
        invariant
            hay@ == line@,
            needle@ == phrase@,
            last == hay.len() - needle.len(),
            needle.len() <= hay.len(),
            forall|k: int| 0 <= k < i ==> !occurs_at(line@, phrase@, k),
        decreases last + 1 - i,
    {
        let mut j: usize = 0;
        while j < needle.len() && hay[i + j] == needle[j]
            invariant
                hay@ == line@,
                needle@ == phrase@,
                i <= last,
                last == hay.len() - needle.len(),
                j <= needle.len(),
                forall|m: int| 0 <= m < j ==> hay@[i + m] == needle@[m],
            decreases needle.len() - j,
        {
            j = j + 1;
        }
        if j == needle.len() {
            assert(line@.subrange(i as int, i + phrase@.len()) =~= phrase@);
            assert(occurs_at(line@, phrase@, i as int));
            return true;
        }
        assert(!occurs_at(line@, phrase@, i as int)) by {
            if occurs_at(line@, phrase@, i as int) {
                assert(line@.subrange(i as int, i + phrase@.len())[j as int] == hay@[i + j]);
            }
        }
        i = i + 1;
    }
    assert forall|k: int| !occurs_at(line@, phrase@, k) by {
        if 0 <= k && k + phrase@.len() <= line@.len() {
            assert(k < i);
        }
    }
    false
}

/// The elements of `parts[lo..hi]`, with `sep` between each two.
pub(crate) fn join_range(parts: &Vec<String>, lo: usize, hi: usize, sep: &str) -> (r: String)
    requires
        lo < hi <= parts.len(),
    ensures
        r@ == joined(views_of(parts@).subrange(lo as int, hi as int), sep@),
{
    let ghost ps = views_of(parts@);
    let mut r = parts[lo].clone();
    assert(ps.subrange(lo as int, lo + 1) =~= seq![parts@[lo as int]@]);
    let mut k: usize = lo + 1;
    while k < hi
        invariant
            lo < k <= hi <= parts.len(),
            ps == views_of(parts@),
            r@ == joined(ps.subrange(lo as int, k as int), sep@),
        decreases hi - k,
    {
        r.append(sep);
        r.append(parts[k].as_str());
        assert(ps.subrange(lo as int, k + 1).drop_last() =~= ps.subrange(lo as int, k as int));
        assert(ps.subrange(lo as int, k + 1).last() == parts@[k as int]@);
        k = k + 1;
    }
    r
}

/// For each line that contains `phrase`, in order, that line with
/// `display_width` lines of context on each side (`DEFAULT_DISPLAY_WIDTH`
/// when not given), joined by line feeds.
pub fn search_lines(lines: &Vec<String>, phrase: &String, display_width: Option<usize>) -> (r: Vec<
    String,
>)
    ensures
        views_of(r@) == sections(
            views_of(lines@),
            phrase@,
            match display_width {
                Some(w) => w as int,
                None => DEFAULT_DISPLAY_WIDTH as int,
            },
            lines.len() as nat,
        ),
{
    let width: usize = match display_width {
        Some(w) => w,
        None => DEFAULT_DISPLAY_WIDTH,
    };
    let ghost ls = views_of(lines@);
    let n = lines.len();
    let mut r: Vec<String> = Vec::new();
    for i in 0..n
        invariant
            n == lines.len(),
            ls == views_of(lines@),
            views_of(r@) == sections(ls, phrase@, width as int, i as nat),
    {
        assert(ls[i as int] == lines@[i as int]@);
        proof {
            reveal_strlit("\n");
        }
        if line_contains(&lines[i], phrase) {
            let start: usize = if i >= width {
                i - width
            } else {
                0
            };
            let end: usize = if width < n - i {
                i + width + 1
            } else {
                n
            };
            let section = join_range(lines, start, end, "\n");
            assert("\n"@ =~= seq!['\n']);
            let ghost before = views_of(r@);
            r.push(section);
            assert(views_of(r@) =~= before.push(section@));
        }
    }
    r
}

} // verus!
