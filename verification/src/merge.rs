//! Fusion of OCR Markdown into clean native Markdown: OCR blocks that repeat
//! native content are dropped and only genuinely additional content is
//! appended.
use vstd::prelude::*;
use crate::compare::{
    best_partial_overlap, best_partial_overlap_in, comparison_key, comparison_units,
    comparison_units_of, key_is_empty, key_views, novel_fragments, novel_fragments_of,
    same_content, views, ComparisonKey, KeyView,
};
use crate::model::PageContentSource;
use crate::text::{
    chars_of, is_blank, join, lines, nonblank, join_chars, markdown_blocks, markdown_blocks_of, push_all, string_from_chars,
    trim_end, trim_end_chars, trim_end_newline_chars, trim_end_newlines, with_trailing_newline,
};

verus! {

/// Some key of `keys` carries the same content as `key`.
pub open spec fn any_same(keys: Seq<KeyView>, key: KeyView) -> bool {
    exists|i: int| 0 <= i < keys.len() && same_content(#[trigger] keys[i], key)
}

/// What an OCR block may add to native content: the block itself when it
/// repeats no native unit in part, else its novel fragments, if any.
pub open spec fn ocr_addition(natives: Seq<KeyView>, block: Seq<char>) -> Option<Seq<char>> {
    match best_partial_overlap(comparison_key(block), natives) {
        Some(j) => novel_fragments(block, natives[j]),
        None => Some(trim_end(block)),
    }
}

/// One OCR block read against the native units and the additions so far
/// (their keys, and their text).
pub open spec fn merge_step(
    natives: Seq<KeyView>,
    state: (Seq<KeyView>, Seq<Seq<char>>),
    block: Seq<char>,
) -> (Seq<KeyView>, Seq<Seq<char>>) {
    let key = comparison_key(block);
    if key_is_empty(key) || any_same(natives, key) || any_same(state.0, key) {
        state
    } else {
        match ocr_addition(natives, block) {
            None => state,
            Some(addition) => {
                let addition_key = comparison_key(addition);
                if key_is_empty(addition_key) || any_same(natives, addition_key) || any_same(
                    state.0,
                    addition_key,
                ) {
                    state
                } else {
                    (state.0.push(addition_key), state.1.push(addition))
                }
            },
        }
    }
}

/// The additions (keys and text) after reading the OCR blocks `blocks`.
pub open spec fn merge_fold(natives: Seq<KeyView>, blocks: Seq<Seq<char>>) -> (
    Seq<KeyView>,
    Seq<Seq<char>>,
)
    decreases blocks.len(),
{
    if blocks.len() == 0 {
        (Seq::empty(), Seq::empty())
    } else {
        merge_step(natives, merge_fold(natives, blocks.drop_last()), blocks.last())
    }
}

/// The OCR additions to `native`, in OCR order.
pub open spec fn ocr_additions(native: Seq<char>, ocr: Seq<char>) -> Seq<Seq<char>> {
    merge_fold(comparison_units(native), markdown_blocks(ocr)).1
}

/// Native Markdown fused with OCR Markdown: the native text with one
/// trailing line feed when OCR adds nothing; otherwise the native text, a
/// blank line, and the additions separated by blank lines.
pub open spec fn merged_markdown(native: Seq<char>, ocr: Seq<char>) -> (Seq<char>, PageContentSource) {
    let additions = ocr_additions(native, ocr);
    if additions.len() == 0 {
        (with_trailing_newline(native), PageContentSource::Native)
    } else {
        let base = trim_end_newlines(native);
        let head = if base.len() > 0 {
            base + seq!['\n', '\n']
        } else {
            base
        };
        (head + join(additions, seq!['\n', '\n']).push('\n'), PageContentSource::Fused)
    }
}

/// Whether some key of `keys` carries the same content as `key`.
fn any_same_content(keys: &Vec<ComparisonKey>, key: &ComparisonKey) -> (r: bool)
    ensures
        r == any_same(key_views(keys@), key@),
{
    let mut i: usize = 0;
    while i < keys.len()
        invariant
            0 <= i <= keys@.len(),
            forall|j: int| 0 <= j < i ==> !same_content(#[trigger] key_views(keys@)[j], key@),
        decreases keys.len() - i,
    {
        assert(key_views(keys@)[i as int] == keys@[i as int]@);
        if keys[i].same_content(key) {
            return true;
        }
        i = i + 1;
    }
    false
}

/// Fuses OCR Markdown into clean native Markdown. OCR blocks whose
/// normalized content repeats a native block or line, or an earlier
/// addition, are dropped; a block that shares most of its tokens with a
/// native unit contributes only its novel fragments. Returns the fused
/// Markdown and whether anything was added.
pub fn merge_native_and_ocr(native: &str, ocr: &str) -> (r: (String, PageContentSource))
    ensures
        (r.0@, r.1) == merged_markdown(native@, ocr@),
{
    let native_chars = chars_of(native);
    let ocr_chars = chars_of(ocr);
    let native_keys = comparison_units_of(&native_chars);
    let ghost natives = comparison_units(native@);
    let blocks = markdown_blocks_of(&ocr_chars);
    let ghost bs = markdown_blocks(ocr@);
    let mut addition_keys: Vec<ComparisonKey> = Vec::new();
    let mut additions: Vec<Vec<char>> = Vec::new();
    let mut i: usize = 0;
    while i < blocks.len()
        invariant
            0 <= i <= blocks@.len(),
            natives == key_views(native_keys@),
            blocks@.len() == bs.len(),
            forall|j: int| 0 <= j < blocks@.len() ==> #[trigger] blocks@[j]@ == bs[j],
            merge_fold(natives, bs.take(i as int)) == (key_views(addition_keys@), views(additions@)),
        decreases blocks.len() - i,
    {
        let ghost state = (key_views(addition_keys@), views(additions@));
        assert(bs.take(i + 1).drop_last() =~= bs.take(i as int));
        assert(bs.take(i + 1).last() == blocks@[i as int]@);
        let block = &blocks[i];
        let key = ComparisonKey::new(block);
        if !key.is_empty() && !any_same_content(&native_keys, &key) && !any_same_content(
            &addition_keys,
            &key,
        ) {
            let best = best_partial_overlap_in(&key, &native_keys);
            let addition = match best {
                Some(j) => {
                    assert(natives[j as int] == native_keys@[j as int]@);
                    assert(best_partial_overlap(key@, natives) == Some(j as int));
                    novel_fragments_of(block, &native_keys[j])
                },
                None => {
                    assert(best_partial_overlap(key@, natives) is None);
                    Some(trim_end_chars(block))
                },
            };
            assert(addition matches Some(a) ==> ocr_addition(natives, block@) == Some(a@));
            assert(addition is None ==> ocr_addition(natives, block@) is None);
            match addition {
                Some(addition) => {
                    let addition_key = ComparisonKey::new(&addition);
                    if !addition_key.is_empty() && !any_same_content(&native_keys, &addition_key)
                        && !any_same_content(&addition_keys, &addition_key) {
                        proof {
                            assert(key_views(addition_keys@.push(addition_key)) =~= key_views(
                                addition_keys@,
                            ).push(addition_key@));
                            assert(views(additions@.push(addition)) =~= views(additions@).push(
                                addition@,
                            ));
                        }
                        addition_keys.push(addition_key);
                        additions.push(addition);
                    }
                },
                None => {},
            }
        }
        i = i + 1;
    }
    assert(bs.take(blocks@.len() as int) =~= bs);
    if additions.len() == 0 {
        let mut result = trim_end_newline_chars(&native_chars);
        result.push('\n');
        (string_from_chars(&result), PageContentSource::Native)
    } else {
        let mut result = trim_end_newline_chars(&native_chars);
        if result.len() > 0 {
            result.push('\n');
            result.push('\n');
        }
        let sep: Vec<char> = vec!['\n', '\n'];
        assert(sep@ =~= seq!['\n', '\n']);
        let joined = join_chars(&additions, &sep);
        assert(additions@.map_values(|p: Vec<char>| p@) =~= views(additions@));
        let ghost base = trim_end_newlines(native@);
        push_all(&mut result, &joined);
        result.push('\n');
        proof {
            if base.len() > 0 {
                assert(result@ =~= (base + seq!['\n', '\n']) + join(
                    views(additions@),
                    seq!['\n', '\n'],
                ).push('\n'));
            } else {
                assert(result@ =~= base + join(views(additions@), seq!['\n', '\n']).push('\n'));
            }
        }
        (string_from_chars(&result), PageContentSource::Fused)
    }
}

proof fn lemma_same_content_reflexive(k: KeyView)
    ensures
        same_content(k, k),
{
}

proof fn lemma_units_start_with_blocks(native: Seq<char>, i: int)
    requires
        0 <= i < markdown_blocks(native).len(),
    ensures
        comparison_units(native)[i] == comparison_key(markdown_blocks(native)[i]),
{
}

proof fn lemma_duplicate_blocks_add_nothing(native: Seq<char>, k: int)
    requires
        0 <= k <= markdown_blocks(native).len(),
    ensures
        merge_fold(comparison_units(native), markdown_blocks(native).take(k)) == (
            Seq::<KeyView>::empty(),
            Seq::<Seq<char>>::empty(),
        ),
    decreases k,
{
    let bs = markdown_blocks(native);
    let natives = comparison_units(native);
    if k > 0 {
        assert(bs.take(k).drop_last() =~= bs.take(k - 1));
        lemma_duplicate_blocks_add_nothing(native, k - 1);
        let key = comparison_key(bs[k - 1]);
        lemma_units_start_with_blocks(native, k - 1);
        lemma_same_content_reflexive(key);
        assert(same_content(natives[k - 1], key));
        assert(any_same(natives, key));
    }
}

/// Fusing native Markdown with an OCR reading that repeats it block for
/// block adds nothing: the result is the native text with one trailing line
/// feed, sourced from native extraction.
pub proof fn lemma_merge_duplicate_is_native(native: Seq<char>)
    ensures
        merged_markdown(native, native) == (with_trailing_newline(native), PageContentSource::Native),
{
    let bs = markdown_blocks(native);
    lemma_duplicate_blocks_add_nothing(native, bs.len() as int);
    assert(bs.take(bs.len() as int) =~= bs);
}

/// Fusion never reports OCR-only content, always ends in a line feed, and
/// keeps the native text (without its trailing line feeds) as a prefix.
pub proof fn lemma_merge_keeps_native(native: Seq<char>, ocr: Seq<char>)
    ensures
        merged_markdown(native, ocr).1 != PageContentSource::Ocr,
        merged_markdown(native, ocr).0.len() > 0,
        merged_markdown(native, ocr).0.last() == '\n',
        trim_end_newlines(native).is_prefix_of(merged_markdown(native, ocr).0),
{
    let additions = ocr_additions(native, ocr);
    let base = trim_end_newlines(native);
    if additions.len() == 0 {
        assert(base.is_prefix_of(base.push('\n')));
    } else {
        let head = if base.len() > 0 {
            base + seq!['\n', '\n']
        } else {
            base
        };
        let m = head + join(additions, seq!['\n', '\n']).push('\n');
        assert(m =~= merged_markdown(native, ocr).0);
        assert(base.is_prefix_of(m)) by {
            assert forall|i: int| 0 <= i < base.len() implies m[i] == base[i] by {
                assert(m[i] == head[i]);
            }
        }
    }
}

/// The additions that fusion appends, with their keys: every key is the
/// key of its addition, carries content, repeats no native unit, and no two
/// additions carry the same content.
pub open spec fn additions_are_novel(
    natives: Seq<KeyView>,
    state: (Seq<KeyView>, Seq<Seq<char>>),
) -> bool {
    &&& state.0.len() == state.1.len()
    &&& forall|i: int| 0 <= i < state.0.len() ==> #[trigger] state.0[i] == comparison_key(state.1[i])
    &&& forall|i: int| 0 <= i < state.0.len() ==> !key_is_empty(#[trigger] state.0[i])
    &&& forall|i: int| 0 <= i < state.0.len() ==> !any_same(natives, #[trigger] state.0[i])
    &&& forall|i: int, j: int|
        0 <= i < j < state.0.len() ==> !same_content(#[trigger] state.0[i], #[trigger] state.0[j])
}

/// Every addition that fusion appends carries content, repeats no native
/// block or line, and repeats no other addition.
pub proof fn lemma_additions_are_novel(natives: Seq<KeyView>, blocks: Seq<Seq<char>>)
    ensures
        additions_are_novel(natives, merge_fold(natives, blocks)),
    decreases blocks.len(),
{
    if blocks.len() > 0 {
        lemma_additions_are_novel(natives, blocks.drop_last());
        let state = merge_fold(natives, blocks.drop_last());
        let next = merge_fold(natives, blocks);
        if next != state {
            let addition = ocr_addition(natives, blocks.last())->0;
            let ak = comparison_key(addition);
            assert(next == (state.0.push(ak), state.1.push(addition)));
            assert forall|i: int, j: int|
                0 <= i < j < next.0.len() implies !same_content(
                #[trigger] next.0[i],
                #[trigger] next.0[j],
            ) by {
                if j == next.0.len() - 1 {
                    if same_content(next.0[i], next.0[j]) {
                        assert(same_content(state.0[i], ak));
                        assert(any_same(state.0, ak));
                    }
                } else {
                    assert(next.0[i] == state.0[i] && next.0[j] == state.0[j]);
                }
            }
        }
    }
}

/// A piece of native Markdown that OCR may repeat: one of its Markdown
/// blocks, or one of its lines that is not blank.
pub open spec fn is_native_piece(native: Seq<char>, piece: Seq<char>) -> bool {
    markdown_blocks(native).contains(piece) || (lines(native).contains(piece) && !is_blank(piece))
}

proof fn lemma_nonblank_keeps(pieces: Seq<Seq<char>>, piece: Seq<char>)
    requires
        pieces.contains(piece),
        !is_blank(piece),
    ensures
        nonblank(pieces).contains(piece),
    decreases pieces.len(),
{
    if pieces.last() == piece {
        assert(nonblank(pieces).last() == piece);
    } else {
        let k = choose|k: int| 0 <= k < pieces.len() && pieces[k] == piece;
        assert(pieces.drop_last()[k] == piece);
        lemma_nonblank_keeps(pieces.drop_last(), piece);
        let rest = nonblank(pieces.drop_last());
        let m = choose|m: int| 0 <= m < rest.len() && rest[m] == piece;
        if !is_blank(pieces.last()) {
            assert(rest.push(pieces.last())[m] == piece);
        }
    }
}

/// Every native piece has its comparison key among the native units.
proof fn lemma_native_piece_is_unit(native: Seq<char>, piece: Seq<char>)
    requires
        is_native_piece(native, piece),
    ensures
        exists|i: int|
            0 <= i < comparison_units(native).len() && #[trigger] comparison_units(native)[i]
                == comparison_key(piece),
{
    let bs = markdown_blocks(native);
    let units = comparison_units(native);
    if bs.contains(piece) {
        let i = choose|i: int| 0 <= i < bs.len() && bs[i] == piece;
        lemma_units_start_with_blocks(native, i);
        assert(units[i] == comparison_key(piece));
    } else {
        lemma_nonblank_keeps(lines(native), piece);
        let ls = nonblank(lines(native));
        let j = choose|j: int| 0 <= j < ls.len() && ls[j] == piece;
        assert(units[bs.len() + j] == comparison_key(piece));
    }
}

/// Some native piece carries the same content as `key`.
pub open spec fn repeats_native_piece(native: Seq<char>, key: KeyView) -> bool {
    exists|piece: Seq<char>| is_native_piece(native, piece) && same_content(
        key,
        #[trigger] comparison_key(piece),
    )
}

proof fn lemma_repeat_is_unit_match(native: Seq<char>, key: KeyView)
    requires
        repeats_native_piece(native, key),
    ensures
        any_same(comparison_units(native), key),
{
    let piece = choose|piece: Seq<char>| is_native_piece(native, piece) && same_content(
        key,
        #[trigger] comparison_key(piece),
    );
    lemma_native_piece_is_unit(native, piece);
    let i = choose|i: int|
        0 <= i < comparison_units(native).len() && #[trigger] comparison_units(native)[i]
            == comparison_key(piece);
    crate::compare::lemma_same_content_is_equivalence(key, comparison_key(piece), key);
    assert(same_content(comparison_units(native)[i], key));
}

proof fn lemma_repeating_blocks_fold(native: Seq<char>, blocks: Seq<Seq<char>>)
    requires
        forall|i: int|
            0 <= i < blocks.len() ==> repeats_native_piece(
                native,
                comparison_key(#[trigger] blocks[i]),
            ),
    ensures
        merge_fold(comparison_units(native), blocks) == (
            Seq::<KeyView>::empty(),
            Seq::<Seq<char>>::empty(),
        ),
    decreases blocks.len(),
{
    if blocks.len() > 0 {
        let rest = blocks.drop_last();
        assert forall|i: int| 0 <= i < rest.len() implies repeats_native_piece(
            native,
            comparison_key(#[trigger] rest[i]),
        ) by {
            assert(rest[i] == blocks[i]);
        }
        lemma_repeating_blocks_fold(native, rest);
        assert(repeats_native_piece(native, comparison_key(blocks[blocks.len() - 1])));
        lemma_repeat_is_unit_match(native, comparison_key(blocks.last()));
    }
}

/// OCR whose every block repeats a Markdown block or a non-blank line of
/// the native text adds nothing: the result is the native text with one
/// trailing line feed, sourced from native extraction.
pub proof fn lemma_repeated_blocks_add_nothing(native: Seq<char>, ocr: Seq<char>)
    requires
        forall|i: int|
            0 <= i < markdown_blocks(ocr).len() ==> repeats_native_piece(
                native,
                comparison_key(#[trigger] markdown_blocks(ocr)[i]),
            ),
    ensures
        merged_markdown(native, ocr) == (with_trailing_newline(native), PageContentSource::Native),
{
    lemma_repeating_blocks_fold(native, markdown_blocks(ocr));
}

/// No addition that fusion appends repeats a Markdown block or a non-blank
/// line of the native text.
pub proof fn lemma_additions_repeat_no_native_piece(native: Seq<char>, ocr: Seq<char>)
    ensures
        forall|i: int|
            0 <= i < ocr_additions(native, ocr).len() ==> !repeats_native_piece(
                native,
                comparison_key(#[trigger] ocr_additions(native, ocr)[i]),
            ),
{
    let natives = comparison_units(native);
    let blocks = markdown_blocks(native);
    lemma_additions_are_novel(natives, markdown_blocks(ocr));
    let state = merge_fold(natives, markdown_blocks(ocr));
    assert forall|i: int| 0 <= i < ocr_additions(native, ocr).len() implies !repeats_native_piece(
        native,
        comparison_key(#[trigger] ocr_additions(native, ocr)[i]),
    ) by {
        assert(state.0[i] == comparison_key(state.1[i]));
        assert(!any_same(natives, state.0[i]));
        if repeats_native_piece(native, comparison_key(state.1[i])) {
            lemma_repeat_is_unit_match(native, comparison_key(state.1[i]));
        }
    }
}

} // verus!
