//! Recovery of OCR line breaks that Markdown assembly joined: where two
//! recognized lines of the same text flow are separated vertically, the
//! space between them in the Markdown becomes a blank line.
//!
//! Geometry is held in integer image units (a fixed fraction of a pixel),
//! and Markdown positions are character indices.
use vstd::prelude::*;
use crate::text::{
    char_is_whitespace, chars_of, is_blank, is_blank_chars, is_whitespace, push_all,
    string_from_chars, sub_chars, trim, trim_chars, trim_start, trim_start_chars,
};

verus! {

/// Integer image units per pixel: coordinates are held to 1/1024 pixel.
pub const IMAGE_UNITS_PER_PIXEL: i64 = 1024;

/// A point of a rendered page image, in integer image units.
#[derive(Clone, Copy)]
pub struct ImagePoint {
    pub x: i64,
    pub y: i64,
}

/// One recognized OCR line: its text and the corners of its box in the
/// rendered image. `quad` is absent when a corner was not a finite number.
pub struct OcrLine {
    pub text: String,
    pub quad: Option<[ImagePoint; 4]>,
}

/// A recognized line placed both in the image and in the Markdown.
#[derive(Clone, Copy)]
pub struct PlacedLine {
    pub start: usize,
    pub end: usize,
    pub left: i64,
    pub top: i64,
    pub right: i64,
    pub bottom: i64,
}

/// `v` clamped to `[lo, hi]` (`f32::clamp`).
pub open spec fn clamp(v: int, lo: int, hi: int) -> int {
    if v < lo {
        lo
    } else if v > hi {
        hi
    } else {
        v
    }
}

pub open spec fn min4(a: int, b: int, c: int, d: int) -> int {
    let ab = if a <= b {
        a
    } else {
        b
    };
    let cd = if c <= d {
        c
    } else {
        d
    };
    if ab <= cd {
        ab
    } else {
        cd
    }
}

pub open spec fn max4(a: int, b: int, c: int, d: int) -> int {
    let ab = if a >= b {
        a
    } else {
        b
    };
    let cd = if c >= d {
        c
    } else {
        d
    };
    if ab >= cd {
        ab
    } else {
        cd
    }
}

/// The axis-aligned box `(left, top, right, bottom)` of a quadrilateral,
/// clamped to a `width` by `height` image; none when the clamped box is
/// empty.
pub open spec fn quad_bounds(q: Seq<ImagePoint>, width: int, height: int) -> Option<
    (int, int, int, int),
> {
    let left = clamp(min4(q[0].x as int, q[1].x as int, q[2].x as int, q[3].x as int), 0, width);
    let right = clamp(max4(q[0].x as int, q[1].x as int, q[2].x as int, q[3].x as int), 0, width);
    let top = clamp(min4(q[0].y as int, q[1].y as int, q[2].y as int, q[3].y as int), 0, height);
    let bottom = clamp(
        max4(q[0].y as int, q[1].y as int, q[2].y as int, q[3].y as int),
        0,
        height,
    );
    if right > left && bottom > top {
        Some((left, top, right, bottom))
    } else {
        None
    }
}

/// A line usable for break recovery: trimmed text, and its box.
pub struct UsableLine {
    pub text: Seq<char>,
    pub left: int,
    pub top: int,
    pub right: int,
    pub bottom: int,
}

/// The lines with usable geometry and non-blank text, in recognition order.
pub open spec fn usable_lines(lines: Seq<OcrLine>, width: int, height: int) -> Seq<UsableLine>
    decreases lines.len(),
{
    if lines.len() == 0 {
        Seq::empty()
    } else {
        let rest = usable_lines(lines.drop_last(), width, height);
        let line = lines.last();
        match line.quad {
            Some(q) => match quad_bounds(q@, width, height) {
                Some(b) => if trim(line.text@).len() > 0 {
                    rest.push(
                        UsableLine {
                            text: trim(line.text@),
                            left: b.0,
                            top: b.1,
                            right: b.2,
                            bottom: b.3,
                        },
                    )
                } else {
                    rest
                },
                None => rest,
            },
            None => rest,
        }
    }
}

/// The positive heights of `lines`.
pub open spec fn line_heights(lines: Seq<UsableLine>) -> Seq<int>
    decreases lines.len(),
{
    if lines.len() == 0 {
        Seq::empty()
    } else {
        let rest = line_heights(lines.drop_last());
        let h = lines.last().bottom - lines.last().top;
        if h > 0 {
            rest.push(h)
        } else {
            rest
        }
    }
}

/// The start positions of the non-overlapping occurrences of `pat` in `hay`
/// at or after `from`, found from the left (`str::match_indices`).
pub open spec fn matches_from(hay: Seq<char>, pat: Seq<char>, from: int) -> Seq<int>
    decreases hay.len() - from,
{
    if pat.len() == 0 || from < 0 || from + pat.len() > hay.len() {
        Seq::empty()
    } else if hay.subrange(from, from + pat.len()) == pat {
        seq![from] + matches_from(hay, pat, from + pat.len())
    } else {
        matches_from(hay, pat, from + 1)
    }
}

/// The bullet characters that OCR may read in front of a list item.
pub open spec fn is_bullet(c: char) -> bool {
    c == '•' || c == '●' || c == '○' || c == '◦' || c == '▪' || c == '–' || c == '—'
}

/// The text of a list item without its bullet and the white space after it;
/// none when the text does not start with a bullet or nothing follows it.
pub open spec fn strip_list_marker(text: Seq<char>) -> Option<Seq<char>> {
    let trimmed = trim_start(text);
    if trimmed.len() > 0 && is_bullet(trimmed[0]) {
        let remainder = trim_start(trimmed.drop_first());
        if remainder.len() > 0 {
            Some(remainder)
        } else {
            None
        }
    } else {
        None
    }
}

/// Where `span_text` occurs exactly once in `markdown`, that occurrence
/// (start and end); where it does not occur, the one occurrence of its text
/// without a list bullet; otherwise none.
pub open spec fn unique_markdown_span(markdown: Seq<char>, span_text: Seq<char>) -> Option<
    (int, int),
> {
    let exact = matches_from(markdown, span_text, 0);
    if exact.len() == 1 {
        Some((exact[0], exact[0] + span_text.len()))
    } else if exact.len() > 1 {
        None
    } else {
        match strip_list_marker(span_text) {
            Some(normalized) => {
                let found = matches_from(markdown, normalized, 0);
                if found.len() == 1 {
                    Some((found[0], found[0] + normalized.len()))
                } else {
                    None
                }
            },
            None => None,
        }
    }
}

/// The start of the line holding position `offset`: just after the last line
/// feed before it, or 0.
pub open spec fn line_start(markdown: Seq<char>, offset: int) -> int
    decreases offset,
{
    if offset <= 0 {
        0
    } else if markdown[offset - 1] == '\n' {
        offset
    } else {
        line_start(markdown, offset - 1)
    }
}

/// The end of the line holding position `offset`: the first line feed at or
/// after it, or the end of the text.
pub open spec fn line_end(markdown: Seq<char>, offset: int) -> int
    decreases markdown.len() - offset,
{
    if offset >= markdown.len() {
        markdown.len() as int
    } else if markdown[offset] == '\n' {
        offset
    } else {
        line_end(markdown, offset + 1)
    }
}

/// The Markdown line holding position `offset`.
pub open spec fn markdown_line_at(markdown: Seq<char>, offset: int) -> Seq<char> {
    markdown.subrange(line_start(markdown, offset), line_end(markdown, offset))
}

/// The number of occurrences of `c` in `s`.
pub open spec fn count_char(s: Seq<char>, c: char) -> nat
    decreases s.len(),
{
    if s.len() == 0 {
        0
    } else {
        count_char(s.drop_last(), c) + if s.last() == c {
            1nat
        } else {
            0nat
        }
    }
}

/// A Markdown table row: trimmed, it starts and ends with `|` and holds at
/// least two of them.
pub open spec fn is_markdown_table_line(line: Seq<char>) -> bool {
    let t = trim(line);
    t.len() > 0 && t[0] == '|' && t.last() == '|' && count_char(t, '|') >= 2
}

/// `s` with `x` inserted after the last element whose start is not after
/// `x`'s start.
pub open spec fn insert_by_start(s: Seq<PlacedLine>, x: PlacedLine) -> Seq<PlacedLine>
    decreases s.len(),
{
    if s.len() == 0 {
        seq![x]
    } else if x.start < s.last().start {
        insert_by_start(s.drop_last(), x).push(s.last())
    } else {
        s.push(x)
    }
}

/// `s` stably sorted by start position.
pub open spec fn sort_by_start(s: Seq<PlacedLine>) -> Seq<PlacedLine>
    decreases s.len(),
{
    if s.len() == 0 {
        Seq::empty()
    } else {
        insert_by_start(sort_by_start(s.drop_last()), s.last())
    }
}

/// Whether a blank line belongs between consecutive lines `a` and `b` of the
/// Markdown: they share a text column (their horizontal overlap is at least
/// a fifth of the narrower one), `b` starts at least 0.65 median line
/// heights below `a`, only white space separates them in the Markdown, and
/// neither sits on a Markdown table row.
pub open spec fn breaks_between(markdown: Seq<char>, a: PlacedLine, b: PlacedLine, median: int) -> bool {
    let overlap_raw = (if a.right <= b.right {
        a.right
    } else {
        b.right
    }) - (if a.left >= b.left {
        a.left
    } else {
        b.left
    });
    let overlap = if overlap_raw > 0 {
        overlap_raw
    } else {
        0
    };
    let narrowest = if a.right - a.left <= b.right - b.left {
        a.right - a.left
    } else {
        b.right - b.left
    };
    &&& narrowest > 0
    &&& 5 * overlap >= narrowest
    &&& 20 * (b.top - a.bottom) >= 13 * median
    &&& is_blank(markdown.subrange(a.end as int, b.start as int))
    &&& !is_markdown_table_line(markdown_line_at(markdown, a.end as int))
    &&& !is_markdown_table_line(markdown_line_at(markdown, b.start as int))
}

/// The gaps `(end, start)` to turn into blank lines among the first `k`
/// neighbouring pairs of `sorted`.
pub open spec fn gaps_upto(markdown: Seq<char>, sorted: Seq<PlacedLine>, median: int, k: int) -> Seq<
    (int, int),
>
    decreases k,
{
    if k <= 0 {
        Seq::empty()
    } else {
        let rest = gaps_upto(markdown, sorted, median, k - 1);
        let a = sorted[k - 1];
        let b = sorted[k];
        if breaks_between(markdown, a, b, median) {
            rest.push((a.end as int, b.start as int))
        } else {
            rest
        }
    }
}

/// `markdown` with every gap of `gaps` (in increasing order, disjoint)
/// replaced by `"\n\n"`.
pub open spec fn with_breaks(markdown: Seq<char>, gaps: Seq<(int, int)>) -> Seq<char>
    decreases gaps.len(),
{
    if gaps.len() == 0 {
        markdown
    } else {
        let (s, e) = gaps.last();
        with_breaks(markdown.take(s), gaps.drop_last()) + seq!['\n', '\n'] + markdown.skip(e)
    }
}

/// Neighbours in start order overlap or share a start.
pub open spec fn ambiguous_order(sorted: Seq<PlacedLine>) -> bool {
    exists|k: int|
        0 <= k < sorted.len() - 1 && (sorted[k].end > sorted[k + 1].start || sorted[k].start
            == sorted[k + 1].start)
}

/// The lines placed in the Markdown, in recognition order, when every one
/// of them occurs there exactly once.
pub open spec fn placements(markdown: Seq<char>, lines: Seq<UsableLine>) -> Option<Seq<PlacedLine>>
    decreases lines.len(),
{
    if lines.len() == 0 {
        Some(Seq::empty())
    } else {
        match placements(markdown, lines.drop_last()) {
            Some(rest) => match unique_markdown_span(markdown, lines.last().text) {
                Some((start, end)) => Some(
                    rest.push(
                        PlacedLine {
                            start: start as usize,
                            end: end as usize,
                            left: lines.last().left as i64,
                            top: lines.last().top as i64,
                            right: lines.last().right as i64,
                            bottom: lines.last().bottom as i64,
                        },
                    ),
                ),
                None => None,
            },
            None => None,
        }
    }
}

/// Markdown assembled from OCR lines, with blank lines restored between
/// lines of the same text column that the image shows well apart. The text
/// is returned unchanged when fewer than two lines are usable, when a line
/// cannot be placed in the Markdown unambiguously, or when placed lines
/// overlap or share a start.
pub open spec fn preserve_line_breaks(
    markdown: Seq<char>,
    lines: Seq<OcrLine>,
    width: int,
    height: int,
) -> Seq<char> {
    let usable = usable_lines(lines, width, height);
    let heights = line_heights(usable);
    if usable.len() < 2 || heights.len() == 0 {
        markdown
    } else {
        let median = heights.sort()[(heights.len() / 2) as int];
        match placements(markdown, usable) {
            None => markdown,
            Some(placed) => {
                let sorted = sort_by_start(placed);
                if ambiguous_order(sorted) {
                    markdown
                } else {
                    with_breaks(markdown, gaps_upto(markdown, sorted, median, sorted.len() - 1))
                }
            },
        }
    }
}

/// A recognized page: the rendered image size in pixels and the OCR lines,
/// in recognition order.
pub struct OcrLayoutPage {
    pub image_width: u32,
    pub image_height: u32,
    pub lines: Vec<OcrLine>,
}

/// A pixel length in image units.
pub open spec fn pixel_units(px: u32) -> int {
    px * IMAGE_UNITS_PER_PIXEL
}

/// A usable line in executable form.
pub struct Usable {
    pub text: Vec<char>,
    pub left: i64,
    pub top: i64,
    pub right: i64,
    pub bottom: i64,
}

impl View for Usable {
    type V = UsableLine;

    open spec fn view(&self) -> UsableLine {
        UsableLine {
            text: self.text@,
            left: self.left as int,
            top: self.top as int,
            right: self.right as int,
            bottom: self.bottom as int,
        }
    }
}

pub open spec fn usable_views(v: Seq<Usable>) -> Seq<UsableLine> {
    v.map_values(|u: Usable| u@)
}

fn clamp_i64(v: i64, lo: i64, hi: i64) -> (r: i64)
    requires
        lo <= hi,
    ensures
        r == clamp(v as int, lo as int, hi as int),
{
    if v < lo {
        lo
    } else if v > hi {
        hi
    } else {
        v
    }
}

fn min_i64(a: i64, b: i64) -> (r: i64)
    ensures
        r == if a <= b {
            a
        } else {
            b
        },
{
    if a <= b {
        a
    } else {
        b
    }
}

fn max_i64(a: i64, b: i64) -> (r: i64)
    ensures
        r == if a >= b {
            a
        } else {
            b
        },
{
    if a >= b {
        a
    } else {
        b
    }
}

/// The clamped axis-aligned box of a quadrilateral, or none when it is
/// empty.
pub fn image_quad_bounds(q: &[ImagePoint; 4], width: i64, height: i64) -> (r: Option<
    (i64, i64, i64, i64),
>)
    requires
        width >= 0,
        height >= 0,
    ensures
        r matches Some(b) ==> quad_bounds(q@, width as int, height as int) == Some(
            (b.0 as int, b.1 as int, b.2 as int, b.3 as int),
        ),
        r is None ==> quad_bounds(q@, width as int, height as int) is None,
        r matches Some(b) ==> 0 <= b.0 < b.2 <= width && 0 <= b.1 < b.3 <= height,
{
    let left = clamp_i64(
        min_i64(min_i64(q[0].x, q[1].x), min_i64(q[2].x, q[3].x)),
        0,
        width,
    );
    let right = clamp_i64(
        max_i64(max_i64(q[0].x, q[1].x), max_i64(q[2].x, q[3].x)),
        0,
        width,
    );
    let top = clamp_i64(
        min_i64(min_i64(q[0].y, q[1].y), min_i64(q[2].y, q[3].y)),
        0,
        height,
    );
    let bottom = clamp_i64(
        max_i64(max_i64(q[0].y, q[1].y), max_i64(q[2].y, q[3].y)),
        0,
        height,
    );
    if right > left && bottom > top {
        Some((left, top, right, bottom))
    } else {
        None
    }
}

/// The lines of `lines` with usable geometry and non-blank text, trimmed.
fn usable_lines_of(lines: &Vec<OcrLine>, width: i64, height: i64) -> (out: Vec<Usable>)
    requires
        width >= 0,
        height >= 0,
    ensures
        usable_views(out@) == usable_lines(lines@, width as int, height as int),
        forall|i: int|
            0 <= i < out@.len() ==> 0 <= (#[trigger] out@[i]).left < out@[i].right <= width && 0
                <= out@[i].top < out@[i].bottom <= height,
{
    let mut out: Vec<Usable> = Vec::new();
    let mut i: usize = 0;
    while i < lines.len()
        invariant
            0 <= i <= lines@.len(),
            width >= 0,
            height >= 0,
            usable_views(out@) == usable_lines(lines@.take(i as int), width as int, height as int),
            forall|j: int|
                0 <= j < out@.len() ==> 0 <= (#[trigger] out@[j]).left < out@[j].right <= width
                    && 0 <= out@[j].top < out@[j].bottom <= height,
        decreases lines.len() - i,
    {
        assert(lines@.take(i + 1).drop_last() =~= lines@.take(i as int));
        assert(lines@.take(i + 1).last() == lines@[i as int]);
        let line = &lines[i];
        match &line.quad {
            Some(q) => {
                match image_quad_bounds(q, width, height) {
                    Some(b) => {
                        let chars = chars_of(line.text.as_str());
                        let text = trim_chars(&chars);
                        if text.len() > 0 {
                            let u = Usable { text, left: b.0, top: b.1, right: b.2, bottom: b.3 };
                            let ghost before = out@;
                            out.push(u);
                            assert(usable_views(out@) =~= usable_views(before).push(u@));
                        }
                    },
                    None => {},
                }
            },
            None => {},
        }
        i = i + 1;
    }
    assert(lines@.take(lines@.len() as int) =~= lines@);
    out
}

/// Integers viewed as mathematical integers.
pub open spec fn as_ints(v: Seq<i64>) -> Seq<int> {
    v.map_values(|x: i64| x as int)
}

/// `v` sorted in increasing order.
fn sort_heights(v: &Vec<i64>) -> (out: Vec<i64>)
    ensures
        as_ints(out@) == as_ints(v@).sort(),
        out@.len() == v@.len(),
{
    broadcast use vstd::seq_lib::group_to_multiset_ensures;
    let mut out: Vec<i64> = Vec::new();
    let mut i: usize = 0;
    while i < v.len()
        invariant
            0 <= i <= v@.len(),
            forall|a: int, b: int|
                0 <= a < b < out@.len() ==> #[trigger] out@[a] <= #[trigger] out@[b],
            as_ints(out@).to_multiset() == as_ints(v@).take(i as int).to_multiset(),
            out@.len() == i,
        decreases v.len() - i,
    {
        let x = v[i];
        let mut k: usize = out.len();
        while k > 0 && out[k - 1] > x
            invariant
                0 <= k <= out@.len(),
                forall|j: int| k <= j < out@.len() ==> out@[j] > x,
            decreases k,
        {
            k = k - 1;
        }
        let ghost before = as_ints(out@);
        let ghost old_out = out@;
        proof {
            if k > 0 {
                assert(out@[k - 1] <= x);
            }
        }
        out.insert(k, x);
        proof {
            let after = as_ints(out@);
            assert(after =~= before.take(k as int).push(x as int) + before.skip(k as int));
            assert(out@ =~= old_out.take(k as int).push(x) + old_out.skip(k as int));
            assert forall|a: int, b: int| 0 <= a < b < out@.len() implies #[trigger] out@[a]
                <= #[trigger] out@[b] by {
                if a < k && b < k {
                    assert(old_out[a] <= old_out[b]);
                } else if a < k && b == k {
                    assert(old_out[a] <= old_out[k - 1]);
                } else if a < k {
                    assert(old_out[a] <= old_out[b - 1]);
                } else if a == k {
                    assert(old_out[b - 1] > x);
                } else {
                    assert(old_out[a - 1] <= old_out[b - 1]);
                }
            }
            vstd::seq_lib::lemma_multiset_commutative(before.take(k as int).push(x as int), before.skip(k as int));
            vstd::seq_lib::lemma_multiset_commutative(before.take(k as int), before.skip(k as int));
            assert(before.take(k as int) + before.skip(k as int) =~= before);
            assert(as_ints(v@).take(i + 1) =~= as_ints(v@).take(i as int).push(x as int));
            let t = before.take(k as int);
            let u = before.skip(k as int);
            vstd::seq_lib::to_multiset_build(t, x as int);
            assert(t.push(x as int).to_multiset() =~= t.to_multiset().insert(x as int));
            assert(after.to_multiset() =~= t.to_multiset().insert(x as int).add(u.to_multiset()));
            assert(before.to_multiset() =~= t.to_multiset().add(u.to_multiset()));
            assert(after.to_multiset() =~= before.to_multiset().insert(x as int));
            assert(as_ints(v@).take(i + 1) =~= as_ints(v@).take(i as int).push(x as int));
            vstd::seq_lib::to_multiset_build(as_ints(v@).take(i as int), x as int);
        }
        i = i + 1;
    }
    proof {
        assert(as_ints(v@).take(v@.len() as int) =~= as_ints(v@));
        assert(vstd::relations::sorted_by(as_ints(out@), |x: int, y: int| x <= y)) by {
            assert forall|a: int, b: int| 0 <= a < b < as_ints(out@).len() implies (|x: int, y: int| x <= y)(as_ints(out@)[a], as_ints(out@)[b]) by {
                assert(out@[a] <= out@[b]);
            }
        }
        as_ints(v@).lemma_sort_ensures();
        vstd::seq_lib::lemma_sorted_unique(
            as_ints(out@),
            as_ints(v@).sort(),
            |x: int, y: int| x <= y,
        );
    }
    out
}

fn window_equals(hay: &[char], pos: usize, pat: &[char]) -> (r: bool)
    requires
        pos + pat@.len() <= hay@.len(),
    ensures
        r == (hay@.subrange(pos as int, pos + pat@.len()) == pat@),
{
    let n = hay.len();
    let mut j: usize = 0;
    while j < pat.len()
        invariant
            n == hay@.len(),
            pos + pat@.len() <= hay@.len(),
            0 <= j <= pat@.len(),
            forall|t: int| 0 <= t < j ==> hay@[pos + t] == pat@[t],
        decreases pat.len() - j,
    {
        if hay[pos + j] != pat[j] {
            assert(hay@.subrange(pos as int, pos + pat@.len())[j as int] != pat@[j as int]);
            return false;
        }
        j = j + 1;
    }
    assert(hay@.subrange(pos as int, pos + pat@.len()) =~= pat@);
    true
}

/// The number of non-overlapping occurrences of `pat` in `hay` (counted up
/// to two), and where the first one starts.
fn count_matches(hay: &[char], pat: &[char]) -> (r: (usize, usize))
    ensures
        r.0 == if matches_from(hay@, pat@, 0).len() >= 2 {
            2
        } else {
            matches_from(hay@, pat@, 0).len()
        },
        r.0 >= 1 ==> r.1 == matches_from(hay@, pat@, 0)[0],
        r.0 >= 1 ==> r.1 + pat@.len() <= hay@.len(),
{
    if pat.len() == 0 || pat.len() > hay.len() {
        return (0, 0);
    }
    let ghost found: Seq<int> = Seq::empty();
    let mut count: usize = 0;
    let mut first: usize = 0;
    let mut pos: usize = 0;
    while pos <= hay.len() - pat.len() && count < 2
        invariant
            0 < pat@.len() <= hay@.len(),
            0 <= pos <= hay@.len(),
            matches_from(hay@, pat@, 0) == found + matches_from(hay@, pat@, pos as int),
            count == found.len(),
            count <= 2,
            count >= 1 ==> first == found[0] && first + pat@.len() <= hay@.len(),
        decreases hay.len() - pos,
    {
        if window_equals(hay, pos, pat) {
            proof {
                assert(matches_from(hay@, pat@, pos as int) == seq![pos as int] + matches_from(
                    hay@,
                    pat@,
                    pos + pat@.len(),
                ));
                assert(found + (seq![pos as int] + matches_from(hay@, pat@, pos + pat@.len()))
                    =~= found.push(pos as int) + matches_from(hay@, pat@, pos + pat@.len()));
                found = found.push(pos as int);
            }
            if count == 0 {
                first = pos;
            }
            count = count + 1;
            pos = pos + pat.len();
        } else {
            pos = pos + 1;
        }
    }
    proof {
        if count < 2 {
            assert(matches_from(hay@, pat@, pos as int) =~= Seq::<int>::empty());
            assert(found + Seq::<int>::empty() =~= found);
        }
    }
    (count, first)
}

fn is_bullet_char(c: char) -> (r: bool)
    ensures
        r == is_bullet(c),
{
    c == '•' || c == '●' || c == '○' || c == '◦' || c == '▪' || c == '–' || c == '—'
}

/// The text of a list item without its leading bullet and the white space
/// after it, or none.
pub fn strip_list_marker_of(text: &[char]) -> (r: Option<Vec<char>>)
    ensures
        r matches Some(v) ==> strip_list_marker(text@) == Some(v@),
        r is None ==> strip_list_marker(text@) is None,
{
    let trimmed = trim_start_chars(text);
    if trimmed.len() > 0 && is_bullet_char(trimmed[0]) {
        let rest = sub_chars(&trimmed, 1, trimmed.len());
        assert(rest@ =~= trimmed@.drop_first());
        let remainder = trim_start_chars(&rest);
        if remainder.len() > 0 {
            Some(remainder)
        } else {
            None
        }
    } else {
        None
    }
}

/// The unique occurrence of a span's text in the Markdown, as in
/// `unique_markdown_span`.
pub fn unique_markdown_span_of(markdown: &[char], span_text: &[char]) -> (r: Option<(usize, usize)>)
    ensures
        r matches Some(p) ==> unique_markdown_span(markdown@, span_text@) == Some(
            (p.0 as int, p.1 as int),
        ) && p.0 <= p.1 <= markdown@.len(),
        r is None ==> unique_markdown_span(markdown@, span_text@) is None,
{
    let total = markdown.len();
    assert(total == markdown@.len());
    let (count, first) = count_matches(markdown, span_text);
    if count == 1 {
        return Some((first, first + span_text.len()));
    }
    if count > 1 {
        return None;
    }
    match strip_list_marker_of(span_text) {
        Some(normalized) => {
            let (n, at) = count_matches(markdown, &normalized);
            if n == 1 {
                Some((at, at + normalized.len()))
            } else {
                None
            }
        },
        None => None,
    }
}

proof fn lemma_line_start_bounds(markdown: Seq<char>, offset: int)
    requires
        0 <= offset <= markdown.len(),
    ensures
        0 <= line_start(markdown, offset) <= offset,
    decreases offset,
{
    if offset > 0 && markdown[offset - 1] != '\n' {
        lemma_line_start_bounds(markdown, offset - 1);
    }
}

proof fn lemma_line_end_bounds(markdown: Seq<char>, offset: int)
    requires
        0 <= offset <= markdown.len(),
    ensures
        offset <= line_end(markdown, offset) <= markdown.len(),
    decreases markdown.len() - offset,
{
    if offset < markdown.len() && markdown[offset] != '\n' {
        lemma_line_end_bounds(markdown, offset + 1);
    }
}

/// The Markdown line that holds position `offset`.
fn markdown_line_at_of(markdown: &[char], offset: usize) -> (line: Vec<char>)
    requires
        offset <= markdown@.len(),
    ensures
        line@ == markdown_line_at(markdown@, offset as int),
{
    let mut start = offset;
    while start > 0 && markdown[start - 1] != '\n'
        invariant
            0 <= start <= offset <= markdown@.len(),
            line_start(markdown@, offset as int) == line_start(markdown@, start as int),
        decreases start,
    {
        start = start - 1;
    }
    let mut end = offset;
    while end < markdown.len() && markdown[end] != '\n'
        invariant
            offset <= end <= markdown@.len(),
            line_end(markdown@, offset as int) == line_end(markdown@, end as int),
        decreases markdown.len() - end,
    {
        end = end + 1;
    }
    sub_chars(markdown, start, end)
}

fn count_char_of(s: &[char], c: char) -> (n: usize)
    ensures
        n == count_char(s@, c),
{
    let mut n: usize = 0;
    let mut i: usize = 0;
    while i < s.len()
        invariant
            0 <= i <= s@.len(),
            n == count_char(s@.take(i as int), c),
            n <= i,
        decreases s.len() - i,
    {
        assert(s@.take(i + 1).drop_last() =~= s@.take(i as int));
        if s[i] == c {
            n = n + 1;
        }
        i = i + 1;
    }
    assert(s@.take(s@.len() as int) =~= s@);
    n
}

/// Whether `line` is a Markdown table row.
pub fn is_markdown_table_line_of(line: &[char]) -> (r: bool)
    ensures
        r == is_markdown_table_line(line@),
{
    let t = trim_chars(line);
    t.len() > 0 && t[0] == '|' && t[t.len() - 1] == '|' && count_char_of(&t, '|') >= 2
}

/// Places every usable line in the Markdown, or none when one of them has
/// no unique occurrence.
fn placements_of(markdown: &[char], lines: &Vec<Usable>) -> (r: Option<Vec<PlacedLine>>)
    ensures
        r matches Some(v) ==> placements(markdown@, usable_views(lines@)) == Some(v@),
        r matches Some(v) ==> forall|i: int|
            0 <= i < v@.len() ==> (#[trigger] v@[i]).start <= v@[i].end <= markdown@.len(),
        r is None ==> placements(markdown@, usable_views(lines@)) is None,
{
    let ghost ls = usable_views(lines@);
    let mut placed: Vec<PlacedLine> = Vec::new();
    let mut i: usize = 0;
    while i < lines.len()
        invariant
            0 <= i <= lines@.len(),
            ls == usable_views(lines@),
            placements(markdown@, ls.take(i as int)) == Some(placed@),
            forall|j: int|
                0 <= j < placed@.len() ==> (#[trigger] placed@[j]).start <= placed@[j].end
                    <= markdown@.len(),
        decreases lines.len() - i,
    {
        assert(ls.take(i + 1).drop_last() =~= ls.take(i as int));
        assert(ls.take(i + 1).last() == lines@[i as int]@);
        let line = &lines[i];
        match unique_markdown_span_of(markdown, &line.text) {
            Some((start, end)) => {
                placed.push(
                    PlacedLine {
                        start,
                        end,
                        left: line.left,
                        top: line.top,
                        right: line.right,
                        bottom: line.bottom,
                    },
                );
            },
            None => {
                proof {
                    let k = i + 1;
                    lemma_placements_none_extends(markdown@, ls, k as int);
                }
                return None;
            },
        }
        i = i + 1;
    }
    assert(ls.take(lines@.len() as int) =~= ls);
    Some(placed)
}

proof fn lemma_placements_none_extends(markdown: Seq<char>, ls: Seq<UsableLine>, k: int)
    requires
        0 <= k <= ls.len(),
        placements(markdown, ls.take(k)) is None,
    ensures
        placements(markdown, ls) is None,
    decreases ls.len() - k,
{
    if k < ls.len() {
        assert(ls.take(k + 1).drop_last() =~= ls.take(k));
        lemma_placements_none_extends(markdown, ls, k + 1);
    } else {
        assert(ls.take(k) =~= ls);
    }
}

proof fn lemma_insert_by_start_at(s: Seq<PlacedLine>, x: PlacedLine, k: int)
    requires
        0 <= k <= s.len(),
        forall|j: int| k <= j < s.len() ==> x.start < (#[trigger] s[j]).start,
        k > 0 ==> s[k - 1].start <= x.start,
    ensures
        insert_by_start(s, x) == s.take(k).push(x) + s.skip(k),
    decreases s.len(),
{
    if s.len() == 0 {
        assert(s.take(k).push(x) + s.skip(k) =~= seq![x]);
    } else if k == s.len() {
        assert(s.take(k).push(x) + s.skip(k) =~= s.push(x));
    } else {
        lemma_insert_by_start_at(s.drop_last(), x, k);
        assert(s.drop_last().take(k).push(x) + s.drop_last().skip(k) + seq![s.last()] =~= s.take(
            k,
        ).push(x) + s.skip(k));
    }
}

proof fn lemma_insert_by_start_elements(s: Seq<PlacedLine>, x: PlacedLine, bound: int)
    requires
        x.start <= x.end <= bound,
        forall|j: int| 0 <= j < s.len() ==> (#[trigger] s[j]).start <= s[j].end <= bound,
    ensures
        forall|j: int|
            0 <= j < insert_by_start(s, x).len() ==> (#[trigger] insert_by_start(s, x)[j]).start
                <= insert_by_start(s, x)[j].end <= bound,
        insert_by_start(s, x).len() == s.len() + 1,
    decreases s.len(),
{
    if s.len() > 0 && x.start < s.last().start {
        lemma_insert_by_start_elements(s.drop_last(), x, bound);
    }
}

proof fn lemma_sort_by_start_elements(s: Seq<PlacedLine>, bound: int)
    requires
        forall|j: int| 0 <= j < s.len() ==> (#[trigger] s[j]).start <= s[j].end <= bound,
    ensures
        forall|j: int|
            0 <= j < sort_by_start(s).len() ==> (#[trigger] sort_by_start(s)[j]).start
                <= sort_by_start(s)[j].end <= bound,
        sort_by_start(s).len() == s.len(),
    decreases s.len(),
{
    if s.len() > 0 {
        lemma_sort_by_start_elements(s.drop_last(), bound);
        lemma_insert_by_start_elements(sort_by_start(s.drop_last()), s.last(), bound);
    }
}

/// `placed` stably sorted by start position.
fn sort_placed(placed: &Vec<PlacedLine>) -> (out: Vec<PlacedLine>)
    ensures
        out@ == sort_by_start(placed@),
{
    let mut out: Vec<PlacedLine> = Vec::new();
    let mut i: usize = 0;
    while i < placed.len()
        invariant
            0 <= i <= placed@.len(),
            out@ == sort_by_start(placed@.take(i as int)),
        decreases placed.len() - i,
    {
        let x = placed[i];
        let mut k: usize = out.len();
        while k > 0 && x.start < out[k - 1].start
            invariant
                0 <= k <= out@.len(),
                forall|j: int| k <= j < out@.len() ==> x.start < (#[trigger] out@[j]).start,
            decreases k,
        {
            k = k - 1;
        }
        proof {
            lemma_insert_by_start_at(out@, x, k as int);
            assert(placed@.take(i + 1).drop_last() =~= placed@.take(i as int));
            assert(out@.insert(k as int, x) =~= out@.take(k as int).push(x) + out@.skip(k as int));
        }
        out.insert(k, x);
        i = i + 1;
    }
    assert(placed@.take(placed@.len() as int) =~= placed@);
    out
}

/// Whether neighbours of `sorted` overlap or share a start.
fn has_ambiguous_order(sorted: &Vec<PlacedLine>) -> (r: bool)
    ensures
        r == ambiguous_order(sorted@),
{
    let n = sorted.len();
    let mut k: usize = 0;
    while n > 0 && k < n - 1
        invariant
            n == sorted@.len(),
            0 <= k,
            sorted@.len() == 0 || k <= sorted@.len() - 1,
            forall|j: int|
                0 <= j < k ==> !(sorted@[j].end > sorted@[j + 1].start || sorted@[j].start
                    == sorted@[j + 1].start),
        decreases sorted.len() - k,
    {
        if sorted[k].end > sorted[k + 1].start || sorted[k].start == sorted[k + 1].start {
            return true;
        }
        k = k + 1;
    }
    false
}

fn breaks_between_of(markdown: &[char], a: PlacedLine, b: PlacedLine, median: i64) -> (r: bool)
    requires
        a.end <= b.start <= markdown@.len(),
    ensures
        r == breaks_between(markdown@, a, b, median as int),
{
    let right = if a.right <= b.right {
        a.right
    } else {
        b.right
    };
    let left = if a.left >= b.left {
        a.left
    } else {
        b.left
    };
    let overlap_raw = (right as i128) - (left as i128);
    let overlap: i128 = if overlap_raw > 0 {
        overlap_raw
    } else {
        0
    };
    let wa = (a.right as i128) - (a.left as i128);
    let wb = (b.right as i128) - (b.left as i128);
    let narrowest = if wa <= wb {
        wa
    } else {
        wb
    };
    let gap = (b.top as i128) - (a.bottom as i128);
    if !(narrowest > 0 && 5 * overlap >= narrowest && 20 * gap >= 13 * (median as i128)) {
        return false;
    }
    let between = sub_chars(markdown, a.end, b.start);
    if !is_blank_chars(&between) {
        return false;
    }
    let before = markdown_line_at_of(markdown, a.end);
    let after = markdown_line_at_of(markdown, b.start);
    !is_markdown_table_line_of(&before) && !is_markdown_table_line_of(&after)
}

/// The gaps are in increasing order and disjoint, within `len`.
pub open spec fn gaps_ordered(gaps: Seq<(int, int)>, len: int) -> bool {
    &&& forall|i: int| 0 <= i < gaps.len() ==> 0 <= (#[trigger] gaps[i]).0 <= gaps[i].1 <= len
    &&& forall|i: int, j: int| 0 <= i < j < gaps.len() ==> (#[trigger] gaps[i]).1 <= (#[trigger] gaps[j]).0
}

/// Neighbours of `sorted` are in order and do not overlap.
pub open spec fn chained(sorted: Seq<PlacedLine>, len: int) -> bool {
    &&& forall|j: int| 0 <= j < sorted.len() ==> (#[trigger] sorted[j]).start <= sorted[j].end <= len
    &&& forall|j: int| 0 <= j < sorted.len() - 1 ==> (#[trigger] sorted[j]).end <= sorted[j + 1].start
}

proof fn lemma_chained_starts(sorted: Seq<PlacedLine>, len: int, i: int, k: int)
    requires
        chained(sorted, len),
        0 <= i <= k < sorted.len(),
    ensures
        sorted[i].end <= sorted[k].start || i == k,
        sorted[i].start <= sorted[k].start,
    decreases k - i,
{
    if i < k {
        lemma_chained_starts(sorted, len, i, k - 1);
        assert(sorted[k - 1].end <= sorted[k].start);
    }
}

proof fn lemma_gaps_upto_ordered(markdown: Seq<char>, sorted: Seq<PlacedLine>, median: int, k: int)
    requires
        chained(sorted, markdown.len() as int),
        0 <= k < sorted.len(),
    ensures
        gaps_ordered(gaps_upto(markdown, sorted, median, k), markdown.len() as int),
        forall|i: int|
            0 <= i < gaps_upto(markdown, sorted, median, k).len() ==> (#[trigger] gaps_upto(
                markdown,
                sorted,
                median,
                k,
            )[i]).1 <= sorted[k].start,
    decreases k,
{
    if k > 0 {
        lemma_gaps_upto_ordered(markdown, sorted, median, k - 1);
        let rest = gaps_upto(markdown, sorted, median, k - 1);
        assert(sorted[k - 1].end <= sorted[k].start);
        assert(sorted[k - 1].start <= sorted[k - 1].end);
        assert forall|i: int| 0 <= i < rest.len() implies (#[trigger] rest[i]).1 <= sorted[k
            - 1].end by {}
    }
}

proof fn lemma_with_breaks_shift(markdown: Seq<char>, gaps: Seq<(int, int)>, y: int, x: int)
    requires
        0 <= y <= x <= markdown.len(),
        gaps_ordered(gaps, y),
    ensures
        with_breaks(markdown.take(x), gaps) == with_breaks(markdown.take(y), gaps)
            + markdown.subrange(y, x),
{
    if gaps.len() == 0 {
        assert(markdown.take(x) =~= markdown.take(y) + markdown.subrange(y, x));
    } else {
        let (s, e) = gaps.last();
        assert(markdown.take(x).take(s) =~= markdown.take(y).take(s));
        assert(markdown.take(x).skip(e) =~= markdown.take(y).skip(e) + markdown.subrange(y, x));
    }
}

/// `markdown` with the ordered gaps replaced by blank lines.
fn apply_breaks(markdown: &[char], gaps: &Vec<(usize, usize)>) -> (out: Vec<char>)
    requires
        gaps_ordered(gaps@.map_values(|g: (usize, usize)| (g.0 as int, g.1 as int)), markdown@.len() as int),
    ensures
        out@ == with_breaks(markdown@, gaps@.map_values(|g: (usize, usize)| (g.0 as int, g.1 as int))),
{
    let ghost gs = gaps@.map_values(|g: (usize, usize)| (g.0 as int, g.1 as int));
    let mut out: Vec<char> = Vec::new();
    let mut cursor: usize = 0;
    let mut k: usize = 0;
    assert(markdown@.take(0) =~= Seq::<char>::empty());
    while k < gaps.len()
        invariant
            0 <= k <= gaps@.len(),
            gs == gaps@.map_values(|g: (usize, usize)| (g.0 as int, g.1 as int)),
            gaps_ordered(gs, markdown@.len() as int),
            cursor <= markdown@.len(),
            k == 0 ==> cursor == 0,
            k > 0 ==> cursor == gs[k - 1].1,
            forall|i: int| k <= i < gs.len() ==> cursor <= (#[trigger] gs[i]).0,
            out@ == with_breaks(markdown@.take(cursor as int), gs.take(k as int)),
        decreases gaps.len() - k,
    {
        let (s, e) = gaps[k];
        assert(gs[k as int] == (s as int, e as int));
        let piece = sub_chars(markdown, cursor, s);
        let ghost before = out@;
        push_all(&mut out, &piece);
        out.push('\n');
        out.push('\n');
        proof {
            let gk = gs.take(k as int);
            assert(gaps_ordered(gk, cursor as int));
            lemma_with_breaks_shift(markdown@, gk, cursor as int, s as int);
            assert(gs.take(k + 1).drop_last() =~= gk);
            assert(gs.take(k + 1).last() == (s as int, e as int));
            assert(markdown@.take(e as int).take(s as int) =~= markdown@.take(s as int));
            assert(markdown@.take(e as int).skip(e as int) =~= Seq::<char>::empty());
            assert(markdown@.take(cursor as int) + markdown@.subrange(cursor as int, s as int)
                =~= markdown@.take(s as int));
            assert(out@ =~= with_breaks(markdown@.take(e as int), gs.take(k + 1)));
        }
        cursor = e;
        k = k + 1;
    }
    let tail = sub_chars(markdown, cursor, markdown.len());
    push_all(&mut out, &tail);
    proof {
        assert(gs.take(gaps@.len() as int) =~= gs);
        assert(gaps_ordered(gs, cursor as int));
        lemma_with_breaks_shift(markdown@, gs, cursor as int, markdown@.len() as int);
        assert(markdown@.take(markdown@.len() as int) =~= markdown@);
    }
    out
}

fn line_heights_of(usable: &Vec<Usable>) -> (heights: Vec<i64>)
    requires
        forall|j: int|
            0 <= j < usable@.len() ==> 0 <= (#[trigger] usable@[j]).top < usable@[j].bottom,
    ensures
        as_ints(heights@) == line_heights(usable_views(usable@)),
{
    let ghost us = usable_views(usable@);
    let mut heights: Vec<i64> = Vec::new();
    let mut i: usize = 0;
    while i < usable.len()
        invariant
            0 <= i <= usable@.len(),
            us == usable_views(usable@),
            forall|j: int|
                0 <= j < usable@.len() ==> 0 <= (#[trigger] usable@[j]).top < usable@[j].bottom,
            as_ints(heights@) == line_heights(us.take(i as int)),
        decreases usable.len() - i,
    {
        assert(us.take(i + 1).drop_last() =~= us.take(i as int));
        assert(us.take(i + 1).last() == usable@[i as int]@);
        let h = usable[i].bottom - usable[i].top;
        if h > 0 {
            let ghost before = heights@;
            heights.push(h);
            assert(as_ints(heights@) =~= as_ints(before).push(h as int));
        }
        i = i + 1;
    }
    assert(us.take(usable@.len() as int) =~= us);
    heights
}

fn gaps_of(md: &Vec<char>, sorted: &Vec<PlacedLine>, median: i64) -> (gaps: Vec<(usize, usize)>)
    requires
        sorted@.len() >= 1,
        chained(sorted@, md@.len() as int),
    ensures
        gaps@.map_values(|g: (usize, usize)| (g.0 as int, g.1 as int)) == gaps_upto(
            md@,
            sorted@,
            median as int,
            sorted@.len() - 1,
        ),
{
    let mut gaps: Vec<(usize, usize)> = Vec::new();
    let mut k: usize = 1;
    while k < sorted.len()
        invariant
            1 <= k <= sorted@.len(),
            chained(sorted@, md@.len() as int),
            gaps@.map_values(|g: (usize, usize)| (g.0 as int, g.1 as int)) == gaps_upto(
                md@,
                sorted@,
                median as int,
                k - 1,
            ),
        decreases sorted.len() - k,
    {
        let a = sorted[k - 1];
        let b = sorted[k];
        if breaks_between_of(md, a, b, median) {
            let ghost before = gaps@;
            gaps.push((a.end, b.start));
            assert(gaps@.map_values(|g: (usize, usize)| (g.0 as int, g.1 as int)) =~= before.map_values(
                |g: (usize, usize)| (g.0 as int, g.1 as int),
            ).push((a.end as int, b.start as int)));
        }
        k = k + 1;
    }
    gaps
}

#[verifier::spinoff_prover]
#[verifier::rlimit(40)]
fn preserve_line_breaks_in(md: &Vec<char>, lines: &Vec<OcrLine>, width: i64, height: i64) -> (out: Vec<char>)
    requires
        width >= 0,
        height >= 0,
    ensures
        out@ == preserve_line_breaks(md@, lines@, width as int, height as int),
{
    let usable = usable_lines_of(lines, width, height);
    if usable.len() < 2 {
        return sub_chars(md, 0, md.len());
    }
    let heights = line_heights_of(&usable);
    if heights.len() == 0 {
        return sub_chars(md, 0, md.len());
    }
    let sorted_heights = sort_heights(&heights);
    let median = sorted_heights[heights.len() / 2];
    assert(as_ints(sorted_heights@)[(heights@.len() / 2) as int] == median as int);
    let placed = match placements_of(md, &usable) {
        Some(placed) => placed,
        None => {
            return sub_chars(md, 0, md.len());
        },
    };
    let sorted = sort_placed(&placed);
    if has_ambiguous_order(&sorted) {
        return sub_chars(md, 0, md.len());
    }
    proof {
        lemma_sort_by_start_elements(placed@, md@.len() as int);
        assert(chained(sorted@, md@.len() as int));
    }
    let gaps = gaps_of(md, &sorted, median);
    proof {
        lemma_gaps_upto_ordered(md@, sorted@, median as int, sorted@.len() - 1);
    }
    apply_breaks(md, &gaps)
}

/// Restores blank lines between OCR lines that Markdown assembly joined.
///
/// Every usable line (non-blank text, non-empty box) is matched to its
/// unique occurrence in `markdown`; the lines are then taken in Markdown
/// order, and the white space between two neighbours becomes `"\n\n"` when
/// they share a text column, the second starts at least 0.65 median line
/// heights below the first, and neither lies on a Markdown table row. The
/// text is returned unchanged when fewer than two lines are usable or the
/// matching is incomplete or ambiguous.
pub fn preserve_ocr_line_breaks(markdown: &str, page: &OcrLayoutPage) -> (out: String)
    ensures
        out@ == preserve_line_breaks(
            markdown@,
            page.lines@,
            pixel_units(page.image_width),
            pixel_units(page.image_height),
        ),
{
    let md = chars_of(markdown);
    let width = (page.image_width as i64) * IMAGE_UNITS_PER_PIXEL;
    let height = (page.image_height as i64) * IMAGE_UNITS_PER_PIXEL;
    let out = preserve_line_breaks_in(&md, &page.lines, width, height);
    string_from_chars(&out)
}

/// The number of recognized lines of `page` with non-blank text and a
/// usable box.
pub fn usable_line_count(page: &OcrLayoutPage) -> (n: usize)
    ensures
        n == usable_lines(
            page.lines@,
            pixel_units(page.image_width),
            pixel_units(page.image_height),
        ).len(),
        n <= page.lines@.len(),
{
    let width = (page.image_width as i64) * IMAGE_UNITS_PER_PIXEL;
    let height = (page.image_height as i64) * IMAGE_UNITS_PER_PIXEL;
    let usable = usable_lines_of(&page.lines, width, height);
    proof {
        lemma_usable_lines_len(page.lines@, width as int, height as int);
    }
    usable.len()
}

proof fn lemma_usable_lines_len(lines: Seq<OcrLine>, width: int, height: int)
    ensures
        usable_lines(lines, width, height).len() <= lines.len(),
    decreases lines.len(),
{
    if lines.len() > 0 {
        lemma_usable_lines_len(lines.drop_last(), width, height);
    }
}

/// `s` without its white space, line feeds included.
pub open spec fn visible_text(s: Seq<char>) -> Seq<char> {
    s.filter(|c: char| !(c == '\n' || char_is_whitespace(c)))
}

proof fn lemma_matches_within(hay: Seq<char>, pat: Seq<char>, from: int)
    ensures
        forall|i: int|
            0 <= i < matches_from(hay, pat, from).len() ==> from <= #[trigger] matches_from(
                hay,
                pat,
                from,
            )[i] && matches_from(hay, pat, from)[i] + pat.len() <= hay.len(),
    decreases hay.len() - from,
{
    if !(pat.len() == 0 || from < 0 || from + pat.len() > hay.len()) {
        if hay.subrange(from, from + pat.len()) == pat {
            let rest = matches_from(hay, pat, from + pat.len());
            lemma_matches_within(hay, pat, from + pat.len());
            assert(matches_from(hay, pat, from) == seq![from] + rest);
            assert forall|i: int| 0 <= i < matches_from(hay, pat, from).len() implies from
                <= #[trigger] matches_from(hay, pat, from)[i] && matches_from(hay, pat, from)[i]
                + pat.len() <= hay.len() by {
                if i > 0 {
                    assert(matches_from(hay, pat, from)[i] == rest[i - 1]);
                }
            }
        } else {
            lemma_matches_within(hay, pat, from + 1);
            assert(matches_from(hay, pat, from) == matches_from(hay, pat, from + 1));
        }
    } else {
        assert(matches_from(hay, pat, from).len() == 0);
    }
}

proof fn lemma_unique_span_within(markdown: Seq<char>, text: Seq<char>)
    ensures
        unique_markdown_span(markdown, text) matches Some((s, e)) ==> 0 <= s <= e
            <= markdown.len(),
{
    lemma_matches_within(markdown, text, 0);
    if let Some(normalized) = strip_list_marker(text) {
        lemma_matches_within(markdown, normalized, 0);
    }
}

proof fn lemma_placements_within(markdown: Seq<char>, lines: Seq<UsableLine>)
    requires
        markdown.len() <= usize::MAX,
    ensures
        placements(markdown, lines) matches Some(p) ==> forall|j: int|
            0 <= j < p.len() ==> (#[trigger] p[j]).start <= p[j].end <= markdown.len(),
    decreases lines.len(),
{
    if lines.len() > 0 {
        lemma_placements_within(markdown, lines.drop_last());
        lemma_unique_span_within(markdown, lines.last().text);
    }
}

proof fn lemma_gaps_upto_blank(markdown: Seq<char>, sorted: Seq<PlacedLine>, median: int, k: int)
    requires
        k < sorted.len(),
    ensures
        forall|i: int|
            0 <= i < gaps_upto(markdown, sorted, median, k).len() ==> is_blank(
                markdown.subrange(
                    (#[trigger] gaps_upto(markdown, sorted, median, k)[i]).0,
                    gaps_upto(markdown, sorted, median, k)[i].1,
                ),
            ),
    decreases k,
{
    if k > 0 {
        lemma_gaps_upto_blank(markdown, sorted, median, k - 1);
        let rest = gaps_upto(markdown, sorted, median, k - 1);
        let gaps = gaps_upto(markdown, sorted, median, k);
        assert forall|i: int| 0 <= i < gaps.len() implies is_blank(
            markdown.subrange((#[trigger] gaps[i]).0, gaps[i].1),
        ) by {
            if i < rest.len() {
                assert(gaps[i] == rest[i]);
            }
        }
    }
}

proof fn lemma_blank_is_invisible(s: Seq<char>)
    requires
        is_blank(s),
    ensures
        visible_text(s) == Seq::<char>::empty(),
    decreases s.len(),
{
    reveal_with_fuel(Seq::filter, 1);
    if s.len() > 0 {
        assert(is_blank(s.drop_last())) by {
            assert forall|i: int| 0 <= i < s.drop_last().len() implies #[trigger] char_is_whitespace(
                s.drop_last()[i],
            ) by {
                assert(s.drop_last()[i] == s[i]);
            }
        }
        lemma_blank_is_invisible(s.drop_last());
        assert(char_is_whitespace(s[s.len() - 1]));
    }
}

#[verifier::spinoff_prover]
#[verifier::rlimit(50)]
proof fn lemma_with_breaks_visible(markdown: Seq<char>, gaps: Seq<(int, int)>)
    requires
        gaps_ordered(gaps, markdown.len() as int),
        forall|i: int|
            0 <= i < gaps.len() ==> is_blank(
                markdown.subrange((#[trigger] gaps[i]).0, gaps[i].1),
            ),
    ensures
        visible_text(with_breaks(markdown, gaps)) == visible_text(markdown),
    decreases gaps.len(),
{
    let keep = |c: char| !(c == '\n' || char_is_whitespace(c));
    if gaps.len() > 0 {
        let (s, e) = gaps.last();
        let rest = gaps.drop_last();
        let head = markdown.take(s);
        assert(gaps[gaps.len() - 1] == (s, e));
        assert forall|i: int| 0 <= i < rest.len() implies is_blank(
            head.subrange((#[trigger] rest[i]).0, rest[i].1),
        ) by {
            assert(rest[i] == gaps[i]);
            assert(rest[i].1 <= s);
            assert(head.subrange(rest[i].0, rest[i].1) =~= markdown.subrange(rest[i].0, rest[i].1));
        }
        assert(gaps_ordered(rest, s)) by {
            assert forall|i: int| 0 <= i < rest.len() implies 0 <= (#[trigger] rest[i]).0 <= rest[i].1
                <= s by {
                assert(rest[i] == gaps[i]);
            }
            assert forall|i: int, j: int| 0 <= i < j < rest.len() implies (#[trigger] rest[i]).1
                <= (#[trigger] rest[j]).0 by {
                assert(rest[i] == gaps[i]);
                assert(rest[j] == gaps[j]);
            }
        }
        lemma_with_breaks_visible(head, rest);
        let middle = markdown.subrange(s, e);
        let tail = markdown.skip(e);
        let breaks = seq!['\n', '\n'];
        lemma_blank_is_invisible(middle);
        reveal_with_fuel(Seq::filter, 3);
        assert(breaks.filter(keep) =~= Seq::<char>::empty());
        Seq::filter_distributes_over_add(with_breaks(head, rest), breaks, keep);
        Seq::filter_distributes_over_add(with_breaks(head, rest) + breaks, tail, keep);
        Seq::filter_distributes_over_add(head, middle, keep);
        Seq::filter_distributes_over_add(head + middle, tail, keep);
        assert(head + middle + tail =~= markdown);
        assert(visible_text(with_breaks(head, rest) + breaks + tail) =~= visible_text(head)
            + visible_text(tail));
        assert(visible_text(head + middle + tail) =~= visible_text(head) + visible_text(tail));
    }
}

/// Line-break recovery changes nothing but white space: with white space
/// set aside, the Markdown it returns is the Markdown it was given.
pub proof fn lemma_line_breaks_keep_visible_text(
    markdown: Seq<char>,
    lines: Seq<OcrLine>,
    width: int,
    height: int,
)
    requires
        markdown.len() <= usize::MAX,
    ensures
        visible_text(preserve_line_breaks(markdown, lines, width, height)) == visible_text(
            markdown,
        ),
{
    let usable = usable_lines(lines, width, height);
    let heights = line_heights(usable);
    if !(usable.len() < 2 || heights.len() == 0) {
        let median = heights.sort()[(heights.len() / 2) as int];
        lemma_placements_within(markdown, usable);
        if let Some(placed) = placements(markdown, usable) {
            let sorted = sort_by_start(placed);
            if !ambiguous_order(sorted) {
                lemma_sort_by_start_elements(placed, markdown.len() as int);
                assert(chained(sorted, markdown.len() as int)) by {
                    assert forall|j: int| 0 <= j < sorted.len() - 1 implies (
                    #[trigger] sorted[j]).end <= sorted[j + 1].start by {
                        if sorted[j].end > sorted[j + 1].start {
                            assert(ambiguous_order(sorted));
                        }
                    }
                }
                if sorted.len() > 0 {
                    let gaps = gaps_upto(markdown, sorted, median, sorted.len() - 1);
                    lemma_gaps_upto_ordered(markdown, sorted, median, sorted.len() - 1);
                    lemma_gaps_upto_blank(markdown, sorted, median, sorted.len() - 1);
                    lemma_with_breaks_visible(markdown, gaps);
                }
            }
        }
    }
}

/// A recognized line as a fused page reports it: its index among the page's
/// recognized lines, its trimmed text, and its clamped box in image units.
pub struct SpanView {
    pub line: int,
    pub text: Seq<char>,
    pub left: int,
    pub top: int,
    pub right: int,
    pub bottom: int,
}

/// The recognized lines with non-blank text and a usable box, in
/// recognition order, each with its index, trimmed text and clamped box.
pub open spec fn ocr_spans(lines: Seq<OcrLine>, width: int, height: int) -> Seq<SpanView>
    decreases lines.len(),
{
    if lines.len() == 0 {
        Seq::empty()
    } else {
        let rest = ocr_spans(lines.drop_last(), width, height);
        let line = lines.last();
        match line.quad {
            Some(q) => match quad_bounds(q@, width, height) {
                Some(b) => if trim(line.text@).len() > 0 {
                    rest.push(
                        SpanView {
                            line: lines.len() - 1,
                            text: trim(line.text@),
                            left: b.0,
                            top: b.1,
                            right: b.2,
                            bottom: b.3,
                        },
                    )
                } else {
                    rest
                },
                None => rest,
            },
            None => rest,
        }
    }
}

/// An accepted OCR span of a page: the index of its recognized line, its
/// trimmed text and its box in image units.
pub struct OcrSpanBox {
    pub line: usize,
    pub text: String,
    pub left: i64,
    pub top: i64,
    pub right: i64,
    pub bottom: i64,
}

impl View for OcrSpanBox {
    type V = SpanView;

    open spec fn view(&self) -> SpanView {
        SpanView {
            line: self.line as int,
            text: self.text@,
            left: self.left as int,
            top: self.top as int,
            right: self.right as int,
            bottom: self.bottom as int,
        }
    }
}

/// The views of spans.
pub open spec fn span_views(v: Seq<OcrSpanBox>) -> Seq<SpanView> {
    v.map_values(|s: OcrSpanBox| s@)
}

/// The accepted OCR spans of a page, in recognition order: every recognized
/// line with non-blank text and a non-empty box inside the image, with its
/// index, trimmed text and clamped box in image units.
pub fn ocr_text_spans(page: &OcrLayoutPage) -> (spans: Vec<OcrSpanBox>)
    ensures
        span_views(spans@) == ocr_spans(
            page.lines@,
            pixel_units(page.image_width),
            pixel_units(page.image_height),
        ),
{
    let width = (page.image_width as i64) * IMAGE_UNITS_PER_PIXEL;
    let height = (page.image_height as i64) * IMAGE_UNITS_PER_PIXEL;
    let lines = &page.lines;
    let mut spans: Vec<OcrSpanBox> = Vec::new();
    let mut i: usize = 0;
    assert(span_views(spans@) =~= Seq::<SpanView>::empty());
    while i < lines.len()
        invariant
            0 <= i <= lines@.len(),
            lines == &page.lines,
            width == pixel_units(page.image_width),
            height == pixel_units(page.image_height),
            width >= 0,
            height >= 0,
            span_views(spans@) == ocr_spans(lines@.take(i as int), width as int, height as int),
        decreases lines.len() - i,
    {
        assert(lines@.take(i + 1).drop_last() =~= lines@.take(i as int));
        assert(lines@.take(i + 1).last() == lines@[i as int]);
        let line = &lines[i];
        match &line.quad {
            Some(q) => {
                match image_quad_bounds(q, width, height) {
                    Some(b) => {
                        let chars = chars_of(line.text.as_str());
                        let text = trim_chars(&chars);
                        if text.len() > 0 {
                            let span = OcrSpanBox {
                                line: i,
                                text: string_from_chars(&text),
                                left: b.0,
                                top: b.1,
                                right: b.2,
                                bottom: b.3,
                            };
                            let ghost before = spans@;
                            spans.push(span);
                            assert(span_views(spans@) =~= span_views(before).push(span@));
                        }
                    },
                    None => {},
                }
            },
            None => {},
        }
        i = i + 1;
    }
    assert(lines@.take(lines@.len() as int) =~= lines@);
    spans
}

} // verus!
