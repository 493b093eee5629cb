//! Character-level text model shared by the Markdown comparison and
//! line-break logic.
//!
//! Text is modelled as `Seq<char>`, the view of `String` and `str`. White
//! space is Unicode's fixed `White_Space` list, written out here;
//! alphanumerics and lower-case mappings come from `char`'s own methods
//! through small wrappers. Every operation built on them is verified here.
use vstd::prelude::*;

verus! {

/// Whether `c` has the Unicode `White_Space` property, which
/// `char::is_whitespace` tests: the controls from tab to carriage return,
/// space, next line, no-break space, ogham space mark, the spaces from en
/// quad to hair space, line and paragraph separators, narrow no-break space,
/// medium mathematical space and ideographic space.
pub open spec fn char_is_whitespace(c: char) -> bool {
    ('\u{9}' <= c <= '\u{d}') || c == ' ' || c == '\u{85}' || c == '\u{a0}' || c == '\u{1680}'
        || ('\u{2000}' <= c <= '\u{200a}') || c == '\u{2028}' || c == '\u{2029}' || c == '\u{202f}'
        || c == '\u{205f}' || c == '\u{3000}'
}

/// Whether `c` is alphabetic or numeric in Unicode's sense, as
/// `char::is_alphanumeric` decides it.
pub uninterp spec fn char_is_alphanumeric(c: char) -> bool;

/// The lower-case mapping of `c`, as `char::to_lowercase` yields it.
pub uninterp spec fn char_lowercase(c: char) -> Seq<char>;

/// Whether `c` has the Unicode `White_Space` property.
pub(crate) fn is_whitespace(c: char) -> (b: bool)
    ensures
        b == char_is_whitespace(c),
{
    ('\u{9}' <= c && c <= '\u{d}') || c == ' ' || c == '\u{85}' || c == '\u{a0}' || c
        == '\u{1680}' || ('\u{2000}' <= c && c <= '\u{200a}') || c == '\u{2028}' || c
        == '\u{2029}' || c == '\u{202f}' || c == '\u{205f}' || c == '\u{3000}'
}

/// Calls `char::is_alphanumeric`; the result is named `char_is_alphanumeric`.
/// Nothing more is claimed of it.
#[verifier::external_body]
pub(crate) fn is_alphanumeric(c: char) -> (b: bool)
    ensures
        b == char_is_alphanumeric(c),
{
    c.is_alphanumeric()
}

/// Calls `char::to_lowercase` and collects the characters it yields; the
/// result is named `char_lowercase`. The documentation promises one or more
/// characters.
#[verifier::external_body]
pub(crate) fn lowercase(c: char) -> (v: Vec<char>)
    ensures
        v@ == char_lowercase(c),
        v@.len() >= 1,
{
    c.to_lowercase().collect()
}

/// Builds a `String` from characters with `String::from_iter`.
#[verifier::external_body]
pub(crate) fn string_from_chars(v: &[char]) -> (s: String)
    ensures
        s@ == v@,
{
    String::from_iter(v.iter())
}

/// `s` without its trailing white space (`str::trim_end`).
pub open spec fn trim_end(s: Seq<char>) -> Seq<char>
    decreases s.len(),
{
    if s.len() > 0 && char_is_whitespace(s.last()) {
        trim_end(s.drop_last())
    } else {
        s
    }
}

/// `s` without its leading white space (`str::trim_start`).
pub open spec fn trim_start(s: Seq<char>) -> Seq<char>
    decreases s.len(),
{
    if s.len() > 0 && char_is_whitespace(s.first()) {
        trim_start(s.drop_first())
    } else {
        s
    }
}

/// `s` without leading and trailing white space (`str::trim`).
pub open spec fn trim(s: Seq<char>) -> Seq<char> {
    trim_start(trim_end(s))
}

/// Every character of `s` is white space, so `s.trim()` is empty.
pub open spec fn is_blank(s: Seq<char>) -> bool {
    forall|i: int| 0 <= i < s.len() ==> #[trigger] char_is_whitespace(s[i])
}

/// `s` without its trailing line feeds (`str::trim_end_matches('\n')`).
pub open spec fn trim_end_newlines(s: Seq<char>) -> Seq<char>
    decreases s.len(),
{
    if s.len() > 0 && s.last() == '\n' {
        trim_end_newlines(s.drop_last())
    } else {
        s
    }
}

/// Dropping trailing line feeds leaves a prefix of the text.
pub proof fn lemma_trim_end_newlines_is_prefix(s: Seq<char>)
    ensures
        trim_end_newlines(s).is_prefix_of(s),
    decreases s.len(),
{
    if s.len() > 0 && s.last() == '\n' {
        lemma_trim_end_newlines_is_prefix(s.drop_last());
    }
}

/// `s` ending in exactly one line feed.
pub open spec fn with_trailing_newline(s: Seq<char>) -> Seq<char> {
    trim_end_newlines(s).push('\n')
}

/// The pieces of `s` between the occurrences of `"\n\n"`, matched from the
/// left without overlap (`str::split("\n\n")`), with the unfinished last
/// piece kept apart: the first component holds the finished pieces.
pub open spec fn paragraph_state(s: Seq<char>) -> (Seq<Seq<char>>, Seq<char>)
    decreases s.len(),
{
    if s.len() == 0 {
        (Seq::empty(), Seq::empty())
    } else {
        let (done, current) = paragraph_state(s.drop_last());
        if s.last() == '\n' && current.len() > 0 && current.last() == '\n' {
            (done.push(current.drop_last()), Seq::empty())
        } else {
            (done, current.push(s.last()))
        }
    }
}

/// `str::split(s, "\n\n")`.
pub open spec fn split_paragraphs(s: Seq<char>) -> Seq<Seq<char>> {
    paragraph_state(s).0.push(paragraph_state(s).1)
}

/// The non-blank pieces of `pieces`, each without trailing white space.
pub open spec fn nonblank_trimmed(pieces: Seq<Seq<char>>) -> Seq<Seq<char>>
    decreases pieces.len(),
{
    if pieces.len() == 0 {
        Seq::empty()
    } else {
        let rest = nonblank_trimmed(pieces.drop_last());
        let piece = trim_end(pieces.last());
        if is_blank(piece) {
            rest
        } else {
            rest.push(piece)
        }
    }
}

/// The Markdown blocks of `s`: its `"\n\n"`-separated pieces without
/// trailing white space, blank pieces dropped.
pub open spec fn markdown_blocks(s: Seq<char>) -> Seq<Seq<char>> {
    nonblank_trimmed(split_paragraphs(s))
}

/// The pieces of `s` between its line feeds, the last piece kept apart.
pub open spec fn line_state(s: Seq<char>) -> (Seq<Seq<char>>, Seq<char>)
    decreases s.len(),
{
    if s.len() == 0 {
        (Seq::empty(), Seq::empty())
    } else {
        let (done, current) = line_state(s.drop_last());
        if s.last() == '\n' {
            (done.push(current), Seq::empty())
        } else {
            (done, current.push(s.last()))
        }
    }
}

/// A line ended by a line feed, without the carriage return before that
/// line feed, if any.
pub open spec fn strip_carriage_return(line: Seq<char>) -> Seq<char> {
    if line.len() > 0 && line.last() == '\r' {
        line.drop_last()
    } else {
        line
    }
}

/// `str::lines`: the pieces between line feeds, a carriage return dropped
/// only where it stands just before a line feed, with no empty piece after a
/// final line feed. A last piece with no line feed after it is kept whole.
pub open spec fn lines(s: Seq<char>) -> Seq<Seq<char>> {
    let (done, last) = line_state(s);
    let ended = done.map_values(|line: Seq<char>| strip_carriage_return(line));
    if last.len() == 0 {
        ended
    } else {
        ended.push(last)
    }
}

/// The non-blank elements of `pieces`, in order.
pub open spec fn nonblank(pieces: Seq<Seq<char>>) -> Seq<Seq<char>>
    decreases pieces.len(),
{
    if pieces.len() == 0 {
        Seq::empty()
    } else {
        let rest = nonblank(pieces.drop_last());
        if is_blank(pieces.last()) {
            rest
        } else {
            rest.push(pieces.last())
        }
    }
}

/// The maximal runs of non-white-space characters of `s`, with the run still
/// open at the end kept apart (`str::split_whitespace`).
pub open spec fn word_state(s: Seq<char>) -> (Seq<Seq<char>>, Seq<char>)
    decreases s.len(),
{
    if s.len() == 0 {
        (Seq::empty(), Seq::empty())
    } else {
        let (done, current) = word_state(s.drop_last());
        if char_is_whitespace(s.last()) {
            if current.len() > 0 {
                (done.push(current), Seq::empty())
            } else {
                (done, current)
            }
        } else {
            (done, current.push(s.last()))
        }
    }
}

/// `str::split_whitespace`.
pub open spec fn words(s: Seq<char>) -> Seq<Seq<char>> {
    let (done, current) = word_state(s);
    if current.len() > 0 {
        done.push(current)
    } else {
        done
    }
}

/// The elements of `parts` joined with `sep` between neighbours
/// (`slice::join`).
pub open spec fn join(parts: Seq<Seq<char>>, sep: Seq<char>) -> Seq<char>
    decreases parts.len(),
{
    if parts.len() == 0 {
        Seq::empty()
    } else if parts.len() == 1 {
        parts[0]
    } else {
        join(parts.drop_last(), sep) + sep + parts.last()
    }
}

/// The lower-case expansion of every character of `s`, in order
/// (`s.chars().flat_map(char::to_lowercase)`).
pub open spec fn lowercased(s: Seq<char>) -> Seq<char>
    decreases s.len(),
{
    if s.len() == 0 {
        Seq::empty()
    } else {
        lowercased(s.drop_last()) + char_lowercase(s.last())
    }
}

/// The characters of `s`, in order.
pub fn chars_of(s: &str) -> (v: Vec<char>)
    ensures
        v@ == s@,
{
    let mut v: Vec<char> = Vec::new();
    for c in it: s.chars()
        invariant
            v@ == it.seq().take(it.index() as int),
    {
        v.push(c);
    }
    v
}

/// The characters `v[lo..hi]`.
pub fn sub_chars(v: &[char], lo: usize, hi: usize) -> (out: Vec<char>)
    requires
        lo <= hi <= v@.len(),
    ensures
        out@ == v@.subrange(lo as int, hi as int),
{
    let mut out: Vec<char> = Vec::new();
    let mut i: usize = lo;
    while i < hi
        invariant
            lo <= i <= hi <= v@.len(),
            out@ == v@.subrange(lo as int, i as int),
        decreases hi - i,
    {
        out.push(v[i]);
        i = i + 1;
        assert(out@ =~= v@.subrange(lo as int, i as int));
    }
    out
}

/// Appends the characters of `src` to `dst`.
pub fn push_all(dst: &mut Vec<char>, src: &[char])
    ensures
        final(dst)@ == old(dst)@ + src@,
{
    let mut i: usize = 0;
    while i < src.len()
        invariant
            0 <= i <= src@.len(),
            dst@ == old(dst)@ + src@.take(i as int),
        decreases src.len() - i,
    {
        dst.push(src[i]);
        i = i + 1;
        assert(dst@ =~= old(dst)@ + src@.take(i as int));
    }
    assert(src@.take(src@.len() as int) =~= src@);
}

/// Whether `a` and `b` hold the same characters in the same order.
pub fn chars_equal(a: &[char], b: &[char]) -> (r: bool)
    ensures
        r == (a@ == b@),
{
    if a.len() != b.len() {
        return false;
    }
    let mut i: usize = 0;
    while i < a.len()
        invariant
            a@.len() == b@.len(),
            0 <= i <= a@.len(),
            forall|j: int| 0 <= j < i ==> a@[j] == b@[j],
        decreases a.len() - i,
    {
        if a[i] != b[i] {
            return false;
        }
        i = i + 1;
    }
    assert(a@ =~= b@);
    true
}

proof fn lemma_trim_end_prefix(s: Seq<char>, k: int)
    requires
        0 <= k <= s.len(),
        forall|j: int| k <= j < s.len() ==> #[trigger] char_is_whitespace(s[j]),
    ensures
        trim_end(s) == trim_end(s.take(k)),
    decreases s.len() - k,
{
    if k < s.len() {
        assert(s.drop_last() =~= s.take(s.len() - 1));
        lemma_trim_end_prefix(s.drop_last(), k);
        assert(s.drop_last().take(k) =~= s.take(k));
    } else {
        assert(s.take(k) =~= s);
    }
}

/// `s` without trailing white space.
pub fn trim_end_chars(s: &[char]) -> (out: Vec<char>)
    ensures
        out@ == trim_end(s@),
{
    let mut k: usize = s.len();
    while k > 0 && is_whitespace(s[k - 1])
        invariant
            0 <= k <= s@.len(),
            forall|j: int| k <= j < s@.len() ==> #[trigger] char_is_whitespace(s@[j]),
        decreases k,
    {
        k = k - 1;
    }
    proof {
        lemma_trim_end_prefix(s@, k as int);
    }
    sub_chars(s, 0, k)
}

proof fn lemma_trim_start_suffix(s: Seq<char>, k: int)
    requires
        0 <= k <= s.len(),
        forall|j: int| 0 <= j < k ==> #[trigger] char_is_whitespace(s[j]),
    ensures
        trim_start(s) == trim_start(s.skip(k)),
    decreases k,
{
    if k > 0 {
        lemma_trim_start_suffix(s.drop_first(), k - 1);
        assert(s.drop_first().skip(k - 1) =~= s.skip(k));
    } else {
        assert(s.skip(0) =~= s);
    }
}

/// `s` without leading white space.
pub fn trim_start_chars(s: &[char]) -> (out: Vec<char>)
    ensures
        out@ == trim_start(s@),
{
    let mut k: usize = 0;
    while k < s.len() && is_whitespace(s[k])
        invariant
            0 <= k <= s@.len(),
            forall|j: int| 0 <= j < k ==> #[trigger] char_is_whitespace(s@[j]),
        decreases s.len() - k,
    {
        k = k + 1;
    }
    proof {
        lemma_trim_start_suffix(s@, k as int);
        assert(s@.skip(k as int) =~= s@.subrange(k as int, s@.len() as int));
    }
    sub_chars(s, k, s.len())
}

/// `s` without leading and trailing white space.
pub fn trim_chars(s: &[char]) -> (out: Vec<char>)
    ensures
        out@ == trim(s@),
{
    let e = trim_end_chars(s);
    trim_start_chars(&e)
}

/// Whether every character of `s` is white space.
pub fn is_blank_chars(s: &[char]) -> (r: bool)
    ensures
        r == is_blank(s@),
{
    let mut i: usize = 0;
    while i < s.len()
        invariant
            0 <= i <= s@.len(),
            forall|j: int| 0 <= j < i ==> #[trigger] char_is_whitespace(s@[j]),
        decreases s.len() - i,
    {
        if !is_whitespace(s[i]) {
            return false;
        }
        i = i + 1;
    }
    true
}

proof fn lemma_trim_end_newlines_prefix(s: Seq<char>, k: int)
    requires
        0 <= k <= s.len(),
        forall|j: int| k <= j < s.len() ==> s[j] == '\n',
    ensures
        trim_end_newlines(s) == trim_end_newlines(s.take(k)),
    decreases s.len() - k,
{
    if k < s.len() {
        lemma_trim_end_newlines_prefix(s.drop_last(), k);
        assert(s.drop_last().take(k) =~= s.take(k));
    } else {
        assert(s.take(k) =~= s);
    }
}

/// `s` without trailing line feeds.
pub fn trim_end_newline_chars(s: &[char]) -> (out: Vec<char>)
    ensures
        out@ == trim_end_newlines(s@),
{
    let mut k: usize = s.len();
    while k > 0 && s[k - 1] == '\n'
        invariant
            0 <= k <= s@.len(),
            forall|j: int| k <= j < s@.len() ==> s@[j] == '\n',
        decreases k,
    {
        k = k - 1;
    }
    proof {
        lemma_trim_end_newlines_prefix(s@, k as int);
    }
    sub_chars(s, 0, k)
}

/// `markdown` ending in exactly one line feed: trailing line feeds are
/// replaced by a single one, and one is added where there was none.
pub fn ensure_trailing_newline(markdown: &str) -> (out: String)
    ensures
        out@ == with_trailing_newline(markdown@),
{
    let chars = chars_of(markdown);
    let mut result = trim_end_newline_chars(&chars);
    result.push('\n');
    string_from_chars(&result)
}

/// The Markdown blocks of `s`, each without trailing white space, blank
/// blocks dropped (`s.split("\n\n").map(str::trim_end)` filtered on
/// non-blank blocks).
pub fn markdown_blocks_of(s: &[char]) -> (blocks: Vec<Vec<char>>)
    ensures
        blocks@.len() == markdown_blocks(s@).len(),
        forall|i: int| 0 <= i < blocks@.len() ==> #[trigger] blocks@[i]@ == markdown_blocks(s@)[i],
{
    let ghost pieces_done: Seq<Seq<char>> = Seq::empty();
    let mut blocks: Vec<Vec<char>> = Vec::new();
    let mut current: Vec<char> = Vec::new();
    let mut i: usize = 0;
    while i < s.len()
        invariant
            0 <= i <= s@.len(),
            paragraph_state(s@.take(i as int)) == (pieces_done, current@),
            blocks@.len() == nonblank_trimmed(pieces_done).len(),
            forall|j: int| 0 <= j < blocks@.len() ==> #[trigger] blocks@[j]@ == nonblank_trimmed(pieces_done)[j],
        decreases s.len() - i,
    {
        let c = s[i];
        assert(s@.take(i + 1).drop_last() =~= s@.take(i as int));
        if c == '\n' && current.len() > 0 && current[current.len() - 1] == '\n' {
            let piece = sub_chars(&current, 0, current.len() - 1);
            let trimmed = trim_end_chars(&piece);
            proof {
                let old_done = pieces_done;
                pieces_done = pieces_done.push(current@.drop_last());
                assert(pieces_done.drop_last() =~= old_done);
                assert(piece@ =~= current@.drop_last());
            }
            if !is_blank_chars(&trimmed) {
                blocks.push(trimmed);
            }
            current = Vec::new();
        } else {
            current.push(c);
        }
        i = i + 1;
    }
    assert(s@.take(s@.len() as int) =~= s@);
    let trimmed = trim_end_chars(&current);
    proof {
        let old_done = pieces_done;
        pieces_done = pieces_done.push(current@);
        assert(pieces_done.drop_last() =~= old_done);
    }
    if !is_blank_chars(&trimmed) {
        blocks.push(trimmed);
    }
    blocks
}

/// The maximal runs of non-white-space characters of `s`
/// (`str::split_whitespace`).
pub fn words_of(s: &[char]) -> (out: Vec<Vec<char>>)
    ensures
        out@.len() == words(s@).len(),
        forall|i: int| 0 <= i < out@.len() ==> #[trigger] out@[i]@ == words(s@)[i],
{
    let ghost done: Seq<Seq<char>> = Seq::empty();
    let mut out: Vec<Vec<char>> = Vec::new();
    let mut current: Vec<char> = Vec::new();
    let mut i: usize = 0;
    while i < s.len()
        invariant
            0 <= i <= s@.len(),
            word_state(s@.take(i as int)) == (done, current@),
            out@.len() == done.len(),
            forall|j: int| 0 <= j < out@.len() ==> #[trigger] out@[j]@ == done[j],
        decreases s.len() - i,
    {
        let c = s[i];
        assert(s@.take(i + 1).drop_last() =~= s@.take(i as int));
        if is_whitespace(c) {
            if current.len() > 0 {
                proof {
                    done = done.push(current@);
                }
                out.push(current);
                current = Vec::new();
            }
        } else {
            current.push(c);
        }
        i = i + 1;
    }
    assert(s@.take(s@.len() as int) =~= s@);
    if current.len() > 0 {
        proof {
            done = done.push(current@);
        }
        out.push(current);
    }
    out
}

/// The lines of `s` (`str::lines`).
pub fn lines_of(s: &[char]) -> (out: Vec<Vec<char>>)
    ensures
        out@.len() == lines(s@).len(),
        forall|i: int| 0 <= i < out@.len() ==> #[trigger] out@[i]@ == lines(s@)[i],
{
    let ghost done: Seq<Seq<char>> = Seq::empty();
    let mut out: Vec<Vec<char>> = Vec::new();
    let mut current: Vec<char> = Vec::new();
    let mut i: usize = 0;
    while i < s.len()
        invariant
            0 <= i <= s@.len(),
            line_state(s@.take(i as int)) == (done, current@),
            out@.len() == done.len(),
            forall|j: int| 0 <= j < out@.len() ==> #[trigger] out@[j]@ == strip_carriage_return(done[j]),
        decreases s.len() - i,
    {
        let c = s[i];
        assert(s@.take(i + 1).drop_last() =~= s@.take(i as int));
        if c == '\n' {
            let line = strip_carriage_return_chars(&current);
            proof {
                done = done.push(current@);
            }
            out.push(line);
            current = Vec::new();
        } else {
            current.push(c);
        }
        i = i + 1;
    }
    assert(s@.take(s@.len() as int) =~= s@);
    if current.len() > 0 {
        out.push(current);
    }
    out
}

fn strip_carriage_return_chars(line: &[char]) -> (out: Vec<char>)
    ensures
        out@ == strip_carriage_return(line@),
{
    if line.len() > 0 && line[line.len() - 1] == '\r' {
        sub_chars(line, 0, line.len() - 1)
    } else {
        sub_chars(line, 0, line.len())
    }
}

/// The elements of `parts` joined with `sep` (`slice::join`).
pub fn join_chars(parts: &Vec<Vec<char>>, sep: &[char]) -> (out: Vec<char>)
    ensures
        out@ == join(parts@.map_values(|p: Vec<char>| p@), sep@),
{
    let ghost ps = parts@.map_values(|p: Vec<char>| p@);
    let mut out: Vec<char> = Vec::new();
    let mut i: usize = 0;
    while i < parts.len()
        invariant
            0 <= i <= parts@.len(),
            ps == parts@.map_values(|p: Vec<char>| p@),
            out@ == join(ps.take(i as int), sep@),
        decreases parts.len() - i,
    {
        assert(ps.take(i + 1).drop_last() =~= ps.take(i as int));
        if i > 0 {
            push_all(&mut out, sep);
        }
        push_all(&mut out, &parts[i]);
        proof {
            if i == 0 {
                assert(ps.take(1)[0] == parts@[0]@);
                assert(out@ =~= ps.take(1)[0]);
            }
        }
        i = i + 1;
    }
    assert(ps.take(parts@.len() as int) =~= ps);
    out
}

} // verus!
