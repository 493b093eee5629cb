//! Line-break recovery does not depend on the order in which the OCR engine
//! reports its lines.
use vstd::prelude::*;
use vstd::multiset::*;
use crate::layout::{
    ambiguous_order, breaks_between, gaps_upto, insert_by_start, line_heights, placements,
    preserve_line_breaks, quad_bounds, sort_by_start, unique_markdown_span, usable_lines, OcrLine,
    PlacedLine, UsableLine,
};
use crate::text::trim;

verus! {

broadcast use vstd::seq_lib::group_to_multiset_ensures, vstd::multiset::group_multiset_axioms;

proof fn lemma_same_len<A>(s: Seq<A>, t: Seq<A>)
    requires
        s.to_multiset() == t.to_multiset(),
    ensures
        s.len() == t.len(),
{
    assert(s.len() == s.to_multiset().len());
    assert(t.len() == t.to_multiset().len());
}

/// The values `f` gives for the elements of `s`, in order, where it gives one.
pub open spec fn keep_some<A, B>(s: Seq<A>, f: spec_fn(A) -> Option<B>) -> Seq<B>
    decreases s.len(),
{
    if s.len() == 0 {
        Seq::empty()
    } else {
        let rest = keep_some(s.drop_last(), f);
        match f(s.last()) {
            Some(b) => rest.push(b),
            None => rest,
        }
    }
}

proof fn lemma_keep_some_len<A, B>(s: Seq<A>, f: spec_fn(A) -> Option<B>)
    ensures
        keep_some(s, f).len() <= s.len(),
    decreases s.len(),
{
    if s.len() > 0 {
        lemma_keep_some_len(s.drop_last(), f);
    }
}

proof fn lemma_keep_some_add<A, B>(a: Seq<A>, b: Seq<A>, f: spec_fn(A) -> Option<B>)
    ensures
        keep_some(a + b, f) == keep_some(a, f) + keep_some(b, f),
    decreases b.len(),
{
    if b.len() == 0 {
        assert(a + b =~= a);
        assert(keep_some(a, f) + keep_some(b, f) =~= keep_some(a, f));
    } else {
        lemma_keep_some_add(a, b.drop_last(), f);
        assert((a + b).drop_last() =~= a + b.drop_last());
        assert((a + b).last() == b.last());
        match f(b.last()) {
            Some(x) => {
                assert(keep_some(a, f) + keep_some(b.drop_last(), f).push(x) =~= (keep_some(a, f)
                    + keep_some(b.drop_last(), f)).push(x));
            },
            None => {},
        }
    }
}

/// Keeping the values of `f` commutes with reordering: sequences with the
/// same elements keep the same values, counted with multiplicity.
proof fn lemma_keep_some_reorder<A, B>(s: Seq<A>, t: Seq<A>, f: spec_fn(A) -> Option<B>)
    requires
        s.to_multiset() == t.to_multiset(),
    ensures
        keep_some(s, f).to_multiset() == keep_some(t, f).to_multiset(),
    decreases s.len(),
{
    if s.len() == 0 {
        lemma_same_len(s, t);
        assert(keep_some(t, f).len() == 0) by {
            lemma_keep_some_len(t, f);
        }
        assert(keep_some(s, f) =~= keep_some(t, f));
    } else {
        let x = s.last();
        let init = s.drop_last();
        assert(init.push(x) =~= s);
        assert(t.to_multiset().count(x) > 0);
        assert(t.contains(x));
        let i = choose|i: int| 0 <= i < t.len() && t[i] == x;
        let rest = t.remove(i);
        assert(rest.to_multiset() =~= t.to_multiset().remove(x));
        assert(rest.to_multiset() =~= init.to_multiset());
        lemma_keep_some_reorder(init, rest, f);
        let left = t.take(i);
        let right = t.skip(i + 1);
        let one = seq![x];
        assert(rest =~= left + right);
        assert(t =~= left + one + right);
        lemma_keep_some_add(left, right, f);
        lemma_keep_some_add(left, one, f);
        lemma_keep_some_add(left + one, right, f);
        assert(one.drop_last() =~= Seq::<A>::empty());
        assert(keep_some(one, f) == keep_some(Seq::<A>::empty(), f) + keep_some(one, f)) by {
            assert(keep_some(Seq::<A>::empty(), f) + keep_some(one, f) =~= keep_some(one, f));
        }
        vstd::seq_lib::lemma_multiset_commutative(keep_some(left, f), keep_some(right, f));
        vstd::seq_lib::lemma_multiset_commutative(keep_some(left, f), keep_some(one, f));
        vstd::seq_lib::lemma_multiset_commutative(
            keep_some(left, f) + keep_some(one, f),
            keep_some(right, f),
        );
        vstd::seq_lib::lemma_multiset_commutative(keep_some(init, f), keep_some(one, f));
        assert(keep_some(s, f) =~= keep_some(init, f) + keep_some(one, f)) by {
            match f(x) {
                Some(b) => {
                    assert(keep_some(one, f) =~= seq![b]);
                },
                None => {
                    assert(keep_some(one, f) =~= Seq::<B>::empty());
                },
            }
        }
        assert(keep_some(s, f).to_multiset() =~= keep_some(t, f).to_multiset());
    }
}

/// The usable form of a recognized line, if it has one.
pub open spec fn usable_of(line: OcrLine, width: int, height: int) -> Option<UsableLine> {
    match line.quad {
        Some(q) => match quad_bounds(q@, width, height) {
            Some(b) => if trim(line.text@).len() > 0 {
                Some(UsableLine { text: trim(line.text@), left: b.0, top: b.1, right: b.2, bottom: b.3 })
            } else {
                None
            },
            None => None,
        },
        None => None,
    }
}

proof fn lemma_usable_lines_keep(lines: Seq<OcrLine>, width: int, height: int)
    ensures
        usable_lines(lines, width, height) == keep_some(
            lines,
            |l: OcrLine| usable_of(l, width, height),
        ),
    decreases lines.len(),
{
    if lines.len() > 0 {
        lemma_usable_lines_keep(lines.drop_last(), width, height);
    }
}

/// The positive height of a usable line, if it has one.
pub open spec fn height_of(line: UsableLine) -> Option<int> {
    if line.bottom - line.top > 0 {
        Some(line.bottom - line.top)
    } else {
        None
    }
}

proof fn lemma_line_heights_keep(lines: Seq<UsableLine>)
    ensures
        line_heights(lines) == keep_some(lines, |l: UsableLine| height_of(l)),
    decreases lines.len(),
{
    if lines.len() > 0 {
        lemma_line_heights_keep(lines.drop_last());
    }
}

/// A usable line placed at its unique occurrence in `markdown`, if it has one.
pub open spec fn placed_in(markdown: Seq<char>, line: UsableLine) -> Option<PlacedLine> {
    match unique_markdown_span(markdown, line.text) {
        Some((start, end)) => Some(
            PlacedLine {
                start: start as usize,
                end: end as usize,
                left: line.left as i64,
                top: line.top as i64,
                right: line.right as i64,
                bottom: line.bottom as i64,
            },
        ),
        None => None,
    }
}

proof fn lemma_placements_keep(markdown: Seq<char>, lines: Seq<UsableLine>)
    ensures
        placements(markdown, lines) is Some <==> keep_some(
            lines,
            |l: UsableLine| placed_in(markdown, l),
        ).len() == lines.len(),
        placements(markdown, lines) is Some ==> placements(markdown, lines) == Some(
            keep_some(lines, |l: UsableLine| placed_in(markdown, l)),
        ),
    decreases lines.len(),
{
    let f = |l: UsableLine| placed_in(markdown, l);
    if lines.len() > 0 {
        lemma_placements_keep(markdown, lines.drop_last());
        lemma_keep_some_len(lines.drop_last(), f);
    }
}

/// Starts never decrease along `s`.
pub open spec fn starts_sorted(s: Seq<PlacedLine>) -> bool {
    forall|i: int, j: int| 0 <= i < j < s.len() ==> (#[trigger] s[i]).start <= (#[trigger] s[j]).start
}

proof fn lemma_insert_by_start_sorted(s: Seq<PlacedLine>, x: PlacedLine)
    requires
        starts_sorted(s),
    ensures
        starts_sorted(insert_by_start(s, x)),
        insert_by_start(s, x).to_multiset() == s.to_multiset().insert(x),
    decreases s.len(),
{
    if s.len() == 0 {
        assert(seq![x] =~= Seq::<PlacedLine>::empty().push(x));
    } else if x.start < s.last().start {
        let rest = s.drop_last();
        lemma_insert_by_start_sorted(rest, x);
        let placed = insert_by_start(rest, x);
        assert(rest.push(s.last()) =~= s);
        assert(placed.to_multiset().insert(s.last()) =~= s.to_multiset().insert(x));
        assert forall|i: int, j: int|
            0 <= i < j < placed.push(s.last()).len() implies (
            #[trigger] placed.push(s.last())[i]).start <= (#[trigger] placed.push(
                s.last(),
            )[j]).start by {
            if j == placed.len() {
                let e = placed[i];
                assert(placed.to_multiset().count(e) > 0);
                if e != x {
                    assert(rest.to_multiset().count(e) > 0);
                    assert(rest.contains(e));
                    let m = choose|m: int| 0 <= m < rest.len() && rest[m] == e;
                    assert(s[m] == e);
                    assert(s[s.len() - 1] == s.last());
                }
            }
        }
    }
}

proof fn lemma_sort_by_start_sorted(s: Seq<PlacedLine>)
    ensures
        starts_sorted(sort_by_start(s)),
        sort_by_start(s).to_multiset() == s.to_multiset(),
    decreases s.len(),
{
    if s.len() > 0 {
        lemma_sort_by_start_sorted(s.drop_last());
        lemma_insert_by_start_sorted(sort_by_start(s.drop_last()), s.last());
        assert(s.drop_last().push(s.last()) =~= s);
    }
}

/// A sequence with strictly increasing starts is the only start-sorted
/// arrangement of its elements.
proof fn lemma_strict_order_unique(x: Seq<PlacedLine>, y: Seq<PlacedLine>)
    requires
        forall|i: int, j: int| 0 <= i < j < x.len() ==> (#[trigger] x[i]).start < (#[trigger] x[j]).start,
        starts_sorted(y),
        x.to_multiset() == y.to_multiset(),
    ensures
        x == y,
    decreases x.len(),
{
    lemma_same_len(x, y);
    if x.len() == 0 {
        assert(x =~= y);
    } else {
        let a = x[0];
        let b = y[0];
        assert(y.to_multiset().count(a) > 0);
        assert(y.contains(a));
        let k = choose|k: int| 0 <= k < y.len() && y[k] == a;
        assert(b.start <= a.start) by {
            if k > 0 {
                assert(y[0].start <= y[k].start);
            }
        }
        assert(x.to_multiset().count(b) > 0);
        assert(x.contains(b));
        let p = choose|p: int| 0 <= p < x.len() && x[p] == b;
        if p > 0 {
            assert(x[0].start < x[p].start);
            assert(false);
        }
        assert(a == b);
        let xs = x.drop_first();
        let ys = y.drop_first();
        assert(x.remove(0) =~= xs);
        assert(y.remove(0) =~= ys);
        assert(xs.to_multiset() =~= ys.to_multiset());
        assert forall|i: int, j: int| 0 <= i < j < xs.len() implies (#[trigger] xs[i]).start < (
        #[trigger] xs[j]).start by {
            assert(xs[i] == x[i + 1]);
            assert(xs[j] == x[j + 1]);
        }
        assert forall|i: int, j: int| 0 <= i < j < ys.len() implies (#[trigger] ys[i]).start <= (
        #[trigger] ys[j]).start by {
            assert(ys[i] == y[i + 1]);
            assert(ys[j] == y[j + 1]);
        }
        lemma_strict_order_unique(xs, ys);
        assert(x =~= y) by {
            assert forall|i: int| 0 <= i < x.len() implies x[i] == y[i] by {
                if i > 0 {
                    assert(xs[i - 1] == x[i]);
                    assert(ys[i - 1] == y[i]);
                }
            }
        }
    }
}

/// Two start-sorted arrangements of the same placed lines are both
/// ambiguous or both not, and in the second case they are the same.
proof fn lemma_sorted_placements_agree(x: Seq<PlacedLine>, y: Seq<PlacedLine>)
    requires
        starts_sorted(x),
        starts_sorted(y),
        x.to_multiset() == y.to_multiset(),
    ensures
        ambiguous_order(x) == ambiguous_order(y),
        !ambiguous_order(x) ==> x == y,
{
    if !ambiguous_order(x) {
        lemma_unambiguous_is_strict(x);
        lemma_strict_order_unique(x, y);
    } else if !ambiguous_order(y) {
        lemma_unambiguous_is_strict(y);
        lemma_strict_order_unique(y, x);
    }
}

proof fn lemma_equal_neighbours_ambiguous(x: Seq<PlacedLine>, k: int)
    requires
        0 <= k < x.len() - 1,
        x[k].start == x[k + 1].start,
    ensures
        ambiguous_order(x),
{
    assert(exists|m: int|
        #![trigger x[m]]
        0 <= m < x.len() - 1 && (x[m].end > x[m + 1].start || x[m].start == x[m + 1].start)) by {
        assert(0 <= k < x.len() - 1 && (x[k].end > x[k + 1].start || x[k].start == x[k + 1].start));
    }
}

proof fn lemma_unambiguous_is_strict(x: Seq<PlacedLine>)
    requires
        starts_sorted(x),
        !ambiguous_order(x),
    ensures
        forall|i: int, j: int| 0 <= i < j < x.len() ==> (#[trigger] x[i]).start < (#[trigger] x[j]).start,
{
    assert forall|i: int, j: int| 0 <= i < j < x.len() implies (#[trigger] x[i]).start < (
    #[trigger] x[j]).start by {
        assert(x[i].start <= x[j - 1].start);
        if x[j - 1].start == x[j].start {
            lemma_equal_neighbours_ambiguous(x, j - 1);
        }
    }
}

proof fn lemma_heights_sort_agree(h: Seq<int>, g: Seq<int>)
    requires
        h.to_multiset() == g.to_multiset(),
    ensures
        h.sort() == g.sort(),
{
    h.lemma_sort_ensures();
    g.lemma_sort_ensures();
    vstd::seq_lib::lemma_sorted_unique(h.sort(), g.sort(), |a: int, b: int| a <= b);
}

/// Line-break recovery does not depend on the order of the recognized
/// lines: the same lines in any order restore the same blank lines.
pub proof fn lemma_line_breaks_ignore_line_order(
    markdown: Seq<char>,
    lines: Seq<OcrLine>,
    reordered: Seq<OcrLine>,
    width: int,
    height: int,
)
    requires
        reordered.to_multiset() == lines.to_multiset(),
    ensures
        preserve_line_breaks(markdown, reordered, width, height) == preserve_line_breaks(
            markdown,
            lines,
            width,
            height,
        ),
{
    let uf = |l: OcrLine| usable_of(l, width, height);
    let hf = |l: UsableLine| height_of(l);
    let pf = |l: UsableLine| placed_in(markdown, l);
    let u1 = usable_lines(lines, width, height);
    let u2 = usable_lines(reordered, width, height);
    lemma_usable_lines_keep(lines, width, height);
    lemma_usable_lines_keep(reordered, width, height);
    lemma_keep_some_reorder(lines, reordered, uf);
    assert(u1.to_multiset() == u2.to_multiset());
    lemma_same_len(u1, u2);
    let h1 = line_heights(u1);
    let h2 = line_heights(u2);
    lemma_line_heights_keep(u1);
    lemma_line_heights_keep(u2);
    lemma_keep_some_reorder(u1, u2, hf);
    lemma_same_len(h1, h2);
    lemma_heights_sort_agree(h1, h2);
    lemma_placements_keep(markdown, u1);
    lemma_placements_keep(markdown, u2);
    lemma_keep_some_reorder(u1, u2, pf);
    lemma_same_len(keep_some(u1, pf), keep_some(u2, pf));
    if !(u1.len() < 2 || h1.len() == 0) {
        if let Some(p1) = placements(markdown, u1) {
            let p2 = placements(markdown, u2)->0;
            let s1 = sort_by_start(p1);
            let s2 = sort_by_start(p2);
            lemma_sort_by_start_sorted(p1);
            lemma_sort_by_start_sorted(p2);
            lemma_sorted_placements_agree(s1, s2);
        }
    }
}

proof fn lemma_keep_some_member<A, B>(s: Seq<A>, f: spec_fn(A) -> Option<B>, b: B)
    requires
        keep_some(s, f).contains(b),
    ensures
        exists|k: int| 0 <= k < s.len() && f(#[trigger] s[k]) == Some(b),
    decreases s.len(),
{
    let rest = keep_some(s.drop_last(), f);
    let m = choose|m: int| 0 <= m < keep_some(s, f).len() && keep_some(s, f)[m] == b;
    if m < rest.len() {
        match f(s.last()) {
            Some(x) => assert(rest.push(x)[m] == rest[m]),
            None => {},
        }
        assert(rest.contains(b));
        lemma_keep_some_member(s.drop_last(), f, b);
        let k = choose|k: int| 0 <= k < s.drop_last().len() && f(#[trigger] s.drop_last()[k]) == Some(b);
        assert(s[k] == s.drop_last()[k]);
    } else {
        assert(f(s[s.len() - 1]) == Some(b));
    }
}

proof fn lemma_usable_bounds(lines: Seq<OcrLine>, width: int, height: int)
    requires
        width >= 0,
        height >= 0,
    ensures
        forall|k: int|
            0 <= k < usable_lines(lines, width, height).len() ==> {
                let u = #[trigger] usable_lines(lines, width, height)[k];
                &&& 0 <= u.left < u.right <= width
                &&& 0 <= u.top < u.bottom <= height
            },
    decreases lines.len(),
{
    if lines.len() > 0 {
        lemma_usable_bounds(lines.drop_last(), width, height);
        let rest = usable_lines(lines.drop_last(), width, height);
        let all = usable_lines(lines, width, height);
        assert forall|k: int| 0 <= k < all.len() implies {
            let v = #[trigger] all[k];
            &&& 0 <= v.left < v.right <= width
            &&& 0 <= v.top < v.bottom <= height
        } by {
            if k < rest.len() {
                assert(all[k] == rest[k]);
            } else {
                let q = lines.last().quad->0;
                let b = quad_bounds(q@, width, height)->0;
                assert(all[k].left == b.0 && all[k].right == b.2);
                assert(all[k].top == b.1 && all[k].bottom == b.3);
            }
        }
    }
}

proof fn lemma_no_breaks_no_gaps(markdown: Seq<char>, sorted: Seq<PlacedLine>, median: int, k: int)
    requires
        k < sorted.len(),
        forall|m: int|
            0 < m <= k ==> !breaks_between(markdown, sorted[m - 1], #[trigger] sorted[m], median),
    ensures
        gaps_upto(markdown, sorted, median, k).len() == 0,
    decreases k,
{
    if k > 0 {
        lemma_no_breaks_no_gaps(markdown, sorted, median, k - 1);
    }
}

/// Lines that lie closer together than 0.65 of the smallest line height,
/// and so of the median one, are never split by a blank line: recovery
/// leaves the Markdown as it is. Normally spaced lines of one paragraph stay
/// together.
#[verifier::spinoff_prover]
#[verifier::rlimit(40)]
pub proof fn lemma_close_lines_stay_together(
    markdown: Seq<char>,
    lines: Seq<OcrLine>,
    width: int,
    height: int,
)
    requires
        0 <= width <= i64::MAX,
        0 <= height <= i64::MAX,
        forall|i: int, j: int, k: int|
            #![trigger usable_lines(lines, width, height)[i], usable_lines(lines, width, height)[j], usable_lines(lines, width, height)[k]]
            0 <= i < usable_lines(lines, width, height).len() && 0 <= j < usable_lines(
                lines,
                width,
                height,
            ).len() && 0 <= k < usable_lines(lines, width, height).len() ==> 20 * (usable_lines(
                lines,
                width,
                height,
            )[j].top - usable_lines(lines, width, height)[i].bottom) < 13 * (usable_lines(
                lines,
                width,
                height,
            )[k].bottom - usable_lines(lines, width, height)[k].top),
    ensures
        preserve_line_breaks(markdown, lines, width, height) == markdown,
{
    let u = usable_lines(lines, width, height);
    let hs = line_heights(u);
    lemma_usable_bounds(lines, width, height);
    if !(u.len() < 2 || hs.len() == 0) {
        let median = hs.sort()[(hs.len() / 2) as int];
        let hf = |l: UsableLine| height_of(l);
        let pf = |l: UsableLine| placed_in(markdown, l);
        hs.lemma_sort_ensures();
        assert(hs.sort()[(hs.len() / 2) as int] == median);
        assert(hs.sort().len() == hs.len()) by {
            assert(hs.sort().to_multiset().len() == hs.to_multiset().len());
        }
        assert(hs.contains(median)) by {
            assert(hs.sort().contains(median));
            assert(hs.sort().to_multiset().count(median) > 0);
        }
        lemma_line_heights_keep(u);
        lemma_keep_some_member(u, hf, median);
        let kh = choose|k: int| 0 <= k < u.len() && hf(#[trigger] u[k]) == Some(median);
        assert(median == u[kh].bottom - u[kh].top);
        lemma_placements_keep(markdown, u);
        if let Some(placed) = placements(markdown, u) {
            let sorted = sort_by_start(placed);
            if !ambiguous_order(sorted) {
                lemma_sort_by_start_sorted(placed);
                assert forall|m: int| 0 < m < sorted.len() implies !breaks_between(
                    markdown,
                    sorted[m - 1],
                    #[trigger] sorted[m],
                    median,
                ) by {
                    let a = sorted[m - 1];
                    let b = sorted[m];
                    assert(sorted.contains(a) && sorted.contains(b)) by {
                        assert(sorted[m - 1] == a);
                    }
                    assert(placed.to_multiset().count(a) > 0);
                    assert(placed.to_multiset().count(b) > 0);
                    assert(placed.contains(a) && placed.contains(b));
                    lemma_keep_some_member(u, pf, a);
                    lemma_keep_some_member(u, pf, b);
                    let ia = choose|k: int| 0 <= k < u.len() && pf(#[trigger] u[k]) == Some(a);
                    let ib = choose|k: int| 0 <= k < u.len() && pf(#[trigger] u[k]) == Some(b);
                    assert(a.bottom as int == u[ia].bottom);
                    assert(b.top as int == u[ib].top);
                    assert(20 * (u[ib].top - u[ia].bottom) < 13 * (u[kh].bottom - u[kh].top));
                }
                lemma_no_breaks_no_gaps(markdown, sorted, median, sorted.len() - 1);
                assert(gaps_upto(markdown, sorted, median, sorted.len() - 1) =~= Seq::<
                    (int, int),
                >::empty());
            }
        }
    }
}

/// No blank line goes between two placed lines when the second starts less
/// than 0.65 median line heights below the bottom of the first.
pub proof fn lemma_close_neighbours_not_split(
    markdown: Seq<char>,
    a: PlacedLine,
    b: PlacedLine,
    median: int,
)
    requires
        20 * (b.top - a.bottom) < 13 * median,
    ensures
        !breaks_between(markdown, a, b, median),
{
}

} // verus!
