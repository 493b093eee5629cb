//! Content comparison of Markdown fragments: normalized comparison keys,
//! token multisets, partial overlaps and the novel part of an OCR block.
use vstd::prelude::*;
use vstd::multiset::*;
use crate::text::{
    char_is_alphanumeric, char_is_whitespace, chars_equal, is_alphanumeric, is_blank_chars,
    is_whitespace, join_chars, lines_of, lowercase, lowercased, markdown_blocks_of, sub_chars,
    words_of,
};

verus! {

broadcast use vstd::seq_lib::group_to_multiset_ensures, vstd::multiset::group_multiset_properties;

/// The views of a vector of character vectors.
pub open spec fn views(v: Seq<Vec<char>>) -> Seq<Seq<char>> {
    v.map_values(|x: Vec<char>| x@)
}

/// Normalized content of a text fragment: its lower-cased alphanumeric runs
/// (tokens) and its non-white-space punctuation, in order.
pub struct KeyView {
    pub tokens: Seq<Seq<char>>,
    pub punctuation: Seq<char>,
}

/// Tokens finished so far, the token being read, and the punctuation so far,
/// after reading the (already lower-cased) characters `s`.
pub open spec fn key_state(s: Seq<char>) -> (Seq<Seq<char>>, Seq<char>, Seq<char>)
    decreases s.len(),
{
    if s.len() == 0 {
        (Seq::empty(), Seq::empty(), Seq::empty())
    } else {
        let (tokens, token, punctuation) = key_state(s.drop_last());
        let c = s.last();
        if char_is_alphanumeric(c) {
            (tokens, token.push(c), punctuation)
        } else {
            let tokens2 = if token.len() > 0 {
                tokens.push(token)
            } else {
                tokens
            };
            let punctuation2 = if !char_is_whitespace(c) {
                punctuation.push(c)
            } else {
                punctuation
            };
            (tokens2, Seq::empty(), punctuation2)
        }
    }
}

/// The comparison key of `text`.
pub open spec fn comparison_key(text: Seq<char>) -> KeyView {
    let (tokens, token, punctuation) = key_state(lowercased(text));
    KeyView {
        tokens: if token.len() > 0 {
            tokens.push(token)
        } else {
            tokens
        },
        punctuation,
    }
}

/// A key with neither tokens nor punctuation.
pub open spec fn key_is_empty(k: KeyView) -> bool {
    k.tokens.len() == 0 && k.punctuation.len() == 0
}

/// Two keys carry the same content: the same multiset of tokens, or, where
/// one has no tokens, no tokens on either side and the same punctuation.
pub open spec fn same_content(a: KeyView, b: KeyView) -> bool {
    if a.tokens.len() == 0 || b.tokens.len() == 0 {
        a.tokens.len() == 0 && b.tokens.len() == 0 && a.punctuation == b.punctuation
    } else {
        a.tokens.to_multiset() == b.tokens.to_multiset()
    }
}

/// Sameness of content sorts keys into classes: it is reflexive, symmetric
/// and transitive, so which of two equivalent blocks fusion meets first does
/// not change what counts as a duplicate.
pub proof fn lemma_same_content_is_equivalence(a: KeyView, b: KeyView, c: KeyView)
    ensures
        same_content(a, a),
        same_content(a, b) ==> same_content(b, a),
        same_content(a, b) && same_content(b, c) ==> same_content(a, c),
{
}

/// The number of tokens two token sequences share, counted with
/// multiplicity.
pub open spec fn token_overlap(a: Seq<Seq<char>>, b: Seq<Seq<char>>) -> nat {
    a.to_multiset().intersection_with(b.to_multiset()).len()
}

/// `native` shares a substantial part of its tokens with `ocr`: at least two,
/// and at least half of either side.
pub open spec fn substantial_overlap(ocr: KeyView, native: KeyView) -> bool {
    let overlap = token_overlap(ocr.tokens, native.tokens);
    &&& native.tokens.len() > 0
    &&& overlap >= 2
    &&& overlap * 2 >= ocr.tokens.len()
    &&& overlap * 2 >= native.tokens.len()
}

/// The characters of `s` that count as content: lower-cased, alphanumeric.
pub open spec fn normalized_content(s: Seq<char>) -> Seq<char> {
    lowercased(s).filter(|c: char| char_is_alphanumeric(c))
}

/// The number of content characters two texts share, with multiplicity.
pub open spec fn shared_content_chars(a: Seq<char>, b: Seq<char>) -> nat {
    normalized_content(a).to_multiset().intersection_with(
        normalized_content(b).to_multiset(),
    ).len()
}

/// Normalized content of a text fragment.
pub struct ComparisonKey {
    pub tokens: Vec<Vec<char>>,
    pub punctuation: Vec<char>,
}

impl View for ComparisonKey {
    type V = KeyView;

    open spec fn view(&self) -> KeyView {
        KeyView { tokens: views(self.tokens@), punctuation: self.punctuation@ }
    }
}

proof fn lemma_views_push(v: Seq<Vec<char>>, x: Vec<char>)
    ensures
        views(v.push(x)) == views(v).push(x@),
{
    assert(views(v.push(x)) =~= views(v).push(x@));
}

impl ComparisonKey {
    /// The comparison key of `text`: lower-case it, split it into
    /// alphanumeric runs, and keep every other non-white-space character as
    /// punctuation.
    pub fn new(text: &[char]) -> (key: ComparisonKey)
        ensures
            key@ == comparison_key(text@),
    {
        let mut tokens: Vec<Vec<char>> = Vec::new();
        let mut token: Vec<char> = Vec::new();
        let mut punctuation: Vec<char> = Vec::new();
        let mut i: usize = 0;
        while i < text.len()
            invariant
                0 <= i <= text@.len(),
                key_state(lowercased(text@.take(i as int))) == (
                    views(tokens@),
                    token@,
                    punctuation@,
                ),
            decreases text.len() - i,
        {
            let lower = lowercase(text[i]);
            let ghost prefix = lowercased(text@.take(i as int));
            assert(text@.take(i + 1).drop_last() =~= text@.take(i as int));
            assert(lowercased(text@.take(i + 1)) == prefix + lower@);
            let mut j: usize = 0;
            while j < lower.len()
                invariant
                    0 <= j <= lower@.len(),
                    key_state(prefix + lower@.take(j as int)) == (
                        views(tokens@),
                        token@,
                        punctuation@,
                    ),
                decreases lower.len() - j,
            {
                let c = lower[j];
                assert((prefix + lower@.take(j + 1)).drop_last() =~= prefix + lower@.take(
                    j as int,
                ));
                assert((prefix + lower@.take(j + 1)).last() == c);
                if is_alphanumeric(c) {
                    token.push(c);
                } else {
                    if token.len() > 0 {
                        proof {
                            lemma_views_push(tokens@, token);
                        }
                        tokens.push(token);
                        token = Vec::new();
                    }
                    if !is_whitespace(c) {
                        punctuation.push(c);
                    }
                }
                j = j + 1;
            }
            assert(lower@.take(lower@.len() as int) =~= lower@);
            i = i + 1;
        }
        assert(text@.take(text@.len() as int) =~= text@);
        if token.len() > 0 {
            proof {
                lemma_views_push(tokens@, token);
            }
            tokens.push(token);
        }
        ComparisonKey { tokens, punctuation }
    }

    /// Whether the key holds neither tokens nor punctuation.
    pub fn is_empty(&self) -> (r: bool)
        ensures
            r == key_is_empty(self@),
    {
        self.tokens.len() == 0 && self.punctuation.len() == 0
    }

    /// Whether the two keys carry the same content.
    pub fn same_content(&self, other: &ComparisonKey) -> (r: bool)
        ensures
            r == same_content(self@, other@),
    {
        if self.tokens.len() == 0 || other.tokens.len() == 0 {
            self.tokens.len() == 0 && other.tokens.len() == 0 && chars_equal(
                &self.punctuation,
                &other.punctuation,
            )
        } else {
            same_tokens(&self.tokens, &other.tokens)
        }
    }
}

/// The number of occurrences of `t` in `tokens`.
pub fn count_token(tokens: &Vec<Vec<char>>, t: &[char]) -> (n: usize)
    ensures
        n == views(tokens@).to_multiset().count(t@),
{
    let mut n: usize = 0;
    let mut i: usize = 0;
    while i < tokens.len()
        invariant
            0 <= i <= tokens@.len(),
            n == views(tokens@).take(i as int).to_multiset().count(t@),
            n <= i,
        decreases tokens.len() - i,
    {
        assert(views(tokens@).take(i + 1) =~= views(tokens@).take(i as int).push(
            tokens@[i as int]@,
        ));
        if chars_equal(&tokens[i], t) {
            n = n + 1;
        }
        i = i + 1;
    }
    assert(views(tokens@).take(tokens@.len() as int) =~= views(tokens@));
    n
}

/// Whether every token of `a` occurs as often in `a` as in `b`.
fn counts_agree_on(a: &Vec<Vec<char>>, b: &Vec<Vec<char>>) -> (r: bool)
    ensures
        r == forall|i: int|
            0 <= i < a@.len() ==> views(a@).to_multiset().count(#[trigger] views(a@)[i])
                == views(b@).to_multiset().count(views(a@)[i]),
{
    let mut i: usize = 0;
    while i < a.len()
        invariant
            0 <= i <= a@.len(),
            forall|j: int|
                0 <= j < i ==> views(a@).to_multiset().count(#[trigger] views(a@)[j])
                    == views(b@).to_multiset().count(views(a@)[j]),
        decreases a.len() - i,
    {
        let ca = count_token(a, &a[i]);
        let cb = count_token(b, &a[i]);
        assert(views(a@)[i as int] == a@[i as int]@);
        if ca != cb {
            return false;
        }
        i = i + 1;
    }
    true
}

/// Whether the two token lists hold the same multiset of tokens.
pub fn same_tokens(a: &Vec<Vec<char>>, b: &Vec<Vec<char>>) -> (r: bool)
    ensures
        r == (views(a@).to_multiset() == views(b@).to_multiset()),
{
    let ab = counts_agree_on(a, b);
    let ba = counts_agree_on(b, a);
    let ghost ma = views(a@).to_multiset();
    let ghost mb = views(b@).to_multiset();
    if ab && ba {
        assert forall|x: Seq<char>| ma.count(x) == mb.count(x) by {
            if ma.count(x) > 0 {
                assert(views(a@).contains(x));
                let i = choose|i: int| 0 <= i < views(a@).len() && views(a@)[i] == x;
                assert(ma.count(views(a@)[i]) == mb.count(views(a@)[i]));
            } else if mb.count(x) > 0 {
                assert(views(b@).contains(x));
                let i = choose|i: int| 0 <= i < views(b@).len() && views(b@)[i] == x;
                assert(mb.count(views(b@)[i]) == ma.count(views(b@)[i]));
            }
        }
        assert(ma =~= mb);
        true
    } else {
        false
    }
}

/// Index of a token equal to `t` in `tokens`, if any.
fn find_token(tokens: &Vec<Vec<char>>, t: &[char]) -> (r: Option<usize>)
    ensures
        r matches Some(i) ==> i < tokens@.len() && tokens@[i as int]@ == t@,
        r is None ==> !views(tokens@).contains(t@),
{
    let mut i: usize = 0;
    while i < tokens.len()
        invariant
            0 <= i <= tokens@.len(),
            forall|j: int| 0 <= j < i ==> tokens@[j]@ != t@,
        decreases tokens.len() - i,
    {
        if chars_equal(&tokens[i], t) {
            return Some(i);
        }
        i = i + 1;
    }
    assert forall|j: int| 0 <= j < views(tokens@).len() implies views(tokens@)[j] != t@ by {
        assert(views(tokens@)[j] == tokens@[j]@);
    }
    None
}

proof fn lemma_intersection_insert(a: Multiset<Seq<char>>, b: Multiset<Seq<char>>, x: Seq<char>)
    ensures
        a.count(x) < b.count(x) ==> a.insert(x).intersection_with(b) =~= a.intersection_with(
            b,
        ).insert(x),
        a.count(x) >= b.count(x) ==> a.insert(x).intersection_with(b) =~= a.intersection_with(
            b,
        ),
        a.count(x) < b.count(x) ==> a.insert(x).intersection_with(b).len() == a.intersection_with(
            b,
        ).len() + 1,
        a.count(x) >= b.count(x) ==> a.insert(x).intersection_with(b).len()
            == a.intersection_with(b).len(),
{
    if a.count(x) < b.count(x) {
        assert(a.insert(x).intersection_with(b) =~= a.intersection_with(b).insert(x));
    } else {
        assert(a.insert(x).intersection_with(b) =~= a.intersection_with(b));
    }
}

/// The number of tokens `first` and `second` share, with multiplicity.
pub fn token_overlap_of(first: &Vec<Vec<char>>, second: &Vec<Vec<char>>) -> (n: usize)
    ensures
        n == token_overlap(views(first@), views(second@)),
        n <= first@.len(),
{
    let ghost b = views(second@).to_multiset();
    let mut available: Vec<Vec<char>> = Vec::new();
    let mut k: usize = 0;
    while k < second.len()
        invariant
            0 <= k <= second@.len(),
            views(available@) == views(second@).take(k as int),
        decreases second.len() - k,
    {
        let t = sub_chars(&second[k], 0, second[k].len());
        assert(t@ =~= second@[k as int]@);
        proof {
            lemma_views_push(available@, t);
        }
        available.push(t);
        k = k + 1;
        assert(views(second@).take(k as int) =~= views(second@).take(k - 1).push(
            second@[k - 1]@,
        ));
    }
    assert(views(second@).take(second@.len() as int) =~= views(second@));
    let mut n: usize = 0;
    let mut i: usize = 0;
    assert(views(first@).take(0) =~= Seq::<Seq<char>>::empty());
    assert(Seq::<Seq<char>>::empty().to_multiset().intersection_with(b) =~= Multiset::empty());
    assert(b.difference_with(Seq::<Seq<char>>::empty().to_multiset()) =~= b);
    while i < first.len()
        invariant
            0 <= i <= first@.len(),
            views(available@).to_multiset() == b.difference_with(
                views(first@).take(i as int).to_multiset(),
            ),
            n == views(first@).take(i as int).to_multiset().intersection_with(b).len(),
            n <= i,
        decreases first.len() - i,
    {
        let ghost a = views(first@).take(i as int).to_multiset();
        let ghost x = first@[i as int]@;
        assert(views(first@).take(i + 1) =~= views(first@).take(i as int).push(x));
        assert(views(first@).take(i + 1).to_multiset() =~= a.insert(x));
        let found = find_token(&available, &first[i]);
        match found {
            Some(j) => {
                proof {
                    assert(views(available@)[j as int] == x);
                    assert(views(available@).to_multiset().count(x) > 0);
                    assert(a.count(x) < b.count(x));
                    lemma_intersection_insert(a, b, x);
                    assert(views(available@.remove(j as int)) =~= views(available@).remove(
                        j as int,
                    ));
                    assert(b.difference_with(a.insert(x)) =~= b.difference_with(a).remove(x));
                }
                available.remove(j);
                n = n + 1;
            },
            None => {
                proof {
                    assert(views(available@).to_multiset().count(x) == 0);
                    assert(a.count(x) >= b.count(x));
                    lemma_intersection_insert(a, b, x);
                    assert(b.difference_with(a.insert(x)) =~= b.difference_with(a));
                }
            },
        }
        i = i + 1;
    }
    assert(views(first@).take(first@.len() as int) =~= views(first@));
    n
}

/// Among `natives`, the index of the last key with the largest token overlap
/// with `ocr` among those that overlap it substantially.
pub open spec fn best_overlap_in(ocr: KeyView, natives: Seq<KeyView>) -> Option<int>
    decreases natives.len(),
{
    if natives.len() == 0 {
        None
    } else {
        let previous = best_overlap_in(ocr, natives.drop_last());
        let i = natives.len() - 1;
        if substantial_overlap(ocr, natives[i]) && (previous is None || token_overlap(
            ocr.tokens,
            natives[i].tokens,
        ) >= token_overlap(ocr.tokens, natives[previous->0].tokens)) {
            Some(i)
        } else {
            previous
        }
    }
}

/// The native key that an OCR key partially repeats: none for an OCR key of
/// fewer than two tokens, else the last of the substantially overlapping
/// native keys with the largest overlap.
pub open spec fn best_partial_overlap(ocr: KeyView, natives: Seq<KeyView>) -> Option<int> {
    if ocr.tokens.len() < 2 {
        None
    } else {
        best_overlap_in(ocr, natives)
    }
}

/// The views of a vector of keys.
pub open spec fn key_views(keys: Seq<ComparisonKey>) -> Seq<KeyView> {
    keys.map_values(|k: ComparisonKey| k@)
}

/// `best_overlap_in` picks a substantially overlapping key whose overlap no
/// other one exceeds, and which no later one equals.
pub proof fn lemma_best_overlap_in(ocr: KeyView, natives: Seq<KeyView>)
    ensures
        best_overlap_in(ocr, natives) is None ==> forall|j: int|
            0 <= j < natives.len() ==> !substantial_overlap(ocr, #[trigger] natives[j]),
        best_overlap_in(ocr, natives) matches Some(i) ==> {
            &&& 0 <= i < natives.len()
            &&& substantial_overlap(ocr, natives[i])
            &&& forall|j: int|
                0 <= j < natives.len() && substantial_overlap(ocr, #[trigger] natives[j])
                    ==> token_overlap(ocr.tokens, natives[j].tokens) <= token_overlap(
                    ocr.tokens,
                    natives[i].tokens,
                )
            &&& forall|j: int|
                i < j < natives.len() && substantial_overlap(ocr, #[trigger] natives[j])
                    ==> token_overlap(ocr.tokens, natives[j].tokens) < token_overlap(
                    ocr.tokens,
                    natives[i].tokens,
                )
        },
    decreases natives.len(),
{
    if natives.len() > 0 {
        lemma_best_overlap_in(ocr, natives.drop_last());
        assert forall|j: int| 0 <= j < natives.len() - 1 implies natives.drop_last()[j]
            == natives[j] by {}
    }
}

/// The key in `natives` that `ocr` partially repeats, if any: the last of the
/// keys sharing the most tokens with it among those that share at least two
/// and at least half of either side's tokens. An OCR key of fewer than two
/// tokens repeats none.
pub fn best_partial_overlap_in(ocr: &ComparisonKey, natives: &Vec<ComparisonKey>) -> (r: Option<
    usize,
>)
    ensures
        r matches Some(i) ==> best_partial_overlap(ocr@, key_views(natives@)) == Some(i as int),
        r is None ==> best_partial_overlap(ocr@, key_views(natives@)) is None,
        r matches Some(i) ==> i < natives@.len(),
{
    if ocr.tokens.len() < 2 {
        return None;
    }
    let ghost ks = key_views(natives@);
    let mut best: Option<usize> = None;
    let mut best_overlap: usize = 0;
    let mut i: usize = 0;
    while i < natives.len()
        invariant
            0 <= i <= natives@.len(),
            ks == key_views(natives@),
            ks.len() == natives@.len(),
            best_overlap_in(ocr@, ks.take(i as int)) matches Some(j) ==> 0 <= j < i,
            best == (match best_overlap_in(ocr@, ks.take(i as int)) {
                Some(j) => Some(j as usize),
                None => None::<usize>,
            }),
            best matches Some(j) ==> j < i && best_overlap == token_overlap(
                ocr@.tokens,
                ks[j as int].tokens,
            ),
        decreases natives.len() - i,
    {
        let ghost prefix = ks.take(i + 1);
        assert(prefix.drop_last() =~= ks.take(i as int));
        proof {
            lemma_best_overlap_in(ocr@, prefix);
        }
        assert(prefix[i as int] == natives@[i as int]@);
        let key = &natives[i];
        if key.tokens.len() > 0 {
            let overlap = token_overlap_of(&ocr.tokens, &key.tokens);
            let substantial = overlap >= 2 && (overlap as u128) * 2 >= ocr.tokens.len() as u128
                && (overlap as u128) * 2 >= key.tokens.len() as u128;
            proof {
                if let Some(j) = best {
                    assert(prefix[j as int] == ks[j as int]);
                }
            }
            if substantial && (best.is_none() || overlap >= best_overlap) {
                best = Some(i);
                best_overlap = overlap;
            }
        }
        i = i + 1;
    }
    assert(ks.take(natives@.len() as int) =~= ks);
    proof {
        lemma_best_overlap_in(ocr@, ks);
    }
    best
}

/// The tokens still available and the novel fragments after reading
/// `fragments` against the available native tokens `available`: a fragment
/// is novel when its tokens are not all available, and the tokens it uses
/// are no longer available afterwards.
pub open spec fn novel_state(available: Multiset<Seq<char>>, fragments: Seq<Seq<char>>) -> (
    Multiset<Seq<char>>,
    Seq<Seq<char>>,
)
    decreases fragments.len(),
{
    if fragments.len() == 0 {
        (available, Seq::empty())
    } else {
        let (avail, novel) = novel_state(available, fragments.drop_last());
        let fragment = fragments.last();
        let used = comparison_key(fragment).tokens.to_multiset();
        (
            avail.difference_with(used),
            if !used.subset_of(avail) {
                novel.push(fragment)
            } else {
                novel
            },
        )
    }
}

/// The white-space separated fragments of `block` that carry tokens beyond
/// those of `native`, joined with single spaces; none if there are none.
pub open spec fn novel_fragments(block: Seq<char>, native: KeyView) -> Option<Seq<char>> {
    let novel = novel_state(native.tokens.to_multiset(), crate::text::words(block)).1;
    if novel.len() == 0 {
        None
    } else {
        Some(crate::text::join(novel, seq![' ']))
    }
}

/// Takes the tokens of `used` out of `available`; reports whether one of them
/// was missing.
fn take_tokens(available: &mut Vec<Vec<char>>, used: &Vec<Vec<char>>) -> (missing: bool)
    ensures
        views(final(available)@).to_multiset() == views(old(available)@).to_multiset().difference_with(
            views(used@).to_multiset(),
        ),
        missing == !views(used@).to_multiset().subset_of(views(old(available)@).to_multiset()),
{
    let ghost a0 = views(available@).to_multiset();
    let mut missing = false;
    let mut j: usize = 0;
    assert(views(used@).take(0) =~= Seq::<Seq<char>>::empty());
    assert(a0.difference_with(Seq::<Seq<char>>::empty().to_multiset()) =~= a0);
    while j < used.len()
        invariant
            0 <= j <= used@.len(),
            views(available@).to_multiset() == a0.difference_with(
                views(used@).take(j as int).to_multiset(),
            ),
            missing == !views(used@).take(j as int).to_multiset().subset_of(a0),
        decreases used.len() - j,
    {
        let ghost t = views(used@).take(j as int).to_multiset();
        let ghost x = used@[j as int]@;
        assert(views(used@).take(j + 1) =~= views(used@).take(j as int).push(x));
        assert(views(used@).take(j + 1).to_multiset() =~= t.insert(x));
        match find_token(available, &used[j]) {
            Some(k) => {
                proof {
                    assert(views(available@)[k as int] == x);
                    assert(views(available@).to_multiset().count(x) > 0);
                    assert(views(available@.remove(k as int)) =~= views(available@).remove(
                        k as int,
                    ));
                    assert(a0.difference_with(t.insert(x)) =~= a0.difference_with(t).remove(x));
                    assert(t.insert(x).subset_of(a0) == t.subset_of(a0)) by {
                        if t.subset_of(a0) {
                            assert forall|v: Seq<char>| t.insert(x).count(v) <= a0.count(v) by {}
                        }
                        if t.insert(x).subset_of(a0) {
                            assert forall|v: Seq<char>| t.count(v) <= a0.count(v) by {
                                assert(t.insert(x).count(v) <= a0.count(v));
                            }
                        }
                    }
                }
                available.remove(k);
            },
            None => {
                proof {
                    assert(views(available@).to_multiset().count(x) == 0);
                    assert(a0.difference_with(t.insert(x)) =~= a0.difference_with(t));
                    assert(!t.insert(x).subset_of(a0)) by {
                        assert(t.insert(x).count(x) > a0.count(x));
                    }
                }
                missing = true;
            },
        }
        j = j + 1;
    }
    assert(views(used@).take(used@.len() as int) =~= views(used@));
    missing
}

/// Copies a token list.
fn copy_tokens(tokens: &Vec<Vec<char>>) -> (out: Vec<Vec<char>>)
    ensures
        views(out@) == views(tokens@),
{
    let mut out: Vec<Vec<char>> = Vec::new();
    let mut k: usize = 0;
    while k < tokens.len()
        invariant
            0 <= k <= tokens@.len(),
            views(out@) == views(tokens@).take(k as int),
        decreases tokens.len() - k,
    {
        let t = sub_chars(&tokens[k], 0, tokens[k].len());
        assert(t@ =~= tokens@[k as int]@);
        proof {
            lemma_views_push(out@, t);
        }
        out.push(t);
        k = k + 1;
        assert(views(tokens@).take(k as int) =~= views(tokens@).take(k - 1).push(
            tokens@[k - 1]@,
        ));
    }
    assert(views(tokens@).take(tokens@.len() as int) =~= views(tokens@));
    out
}

/// The fragments of `block` (split at white space) that add tokens beyond
/// those of `native`, joined with single spaces, or none. Each native token
/// covers one occurrence.
pub fn novel_fragments_of(block: &[char], native: &ComparisonKey) -> (r: Option<Vec<char>>)
    ensures
        r matches Some(v) ==> novel_fragments(block@, native@) == Some(v@),
        r is None ==> novel_fragments(block@, native@) is None,
{
    let mut available = copy_tokens(&native.tokens);
    let fragments = words_of(block);
    let ghost frags = crate::text::words(block@);
    let mut novel: Vec<Vec<char>> = Vec::new();
    let mut i: usize = 0;
    while i < fragments.len()
        invariant
            0 <= i <= fragments@.len(),
            fragments@.len() == frags.len(),
            forall|j: int| 0 <= j < fragments@.len() ==> #[trigger] fragments@[j]@ == frags[j],
            novel_state(native@.tokens.to_multiset(), frags.take(i as int)) == (
                views(available@).to_multiset(),
                views(novel@),
            ),
        decreases fragments.len() - i,
    {
        assert(frags.take(i + 1).drop_last() =~= frags.take(i as int));
        assert(frags.take(i + 1).last() == fragments@[i as int]@);
        let key = ComparisonKey::new(&fragments[i]);
        let missing = take_tokens(&mut available, &key.tokens);
        if missing {
            let f = sub_chars(&fragments[i], 0, fragments[i].len());
            assert(f@ =~= fragments@[i as int]@);
            proof {
                lemma_views_push(novel@, f);
            }
            novel.push(f);
        }
        i = i + 1;
    }
    assert(frags.take(fragments@.len() as int) =~= frags);
    if novel.len() == 0 {
        None
    } else {
        let sep: Vec<char> = vec![' '];
        assert(sep@ =~= seq![' ']);
        assert(novel@.map_values(|p: Vec<char>| p@) =~= views(novel@));
        Some(join_chars(&novel, &sep))
    }
}

/// The lower-cased alphanumeric characters of `s`, in order.
pub fn normalized_content_chars(s: &[char]) -> (out: Vec<char>)
    ensures
        out@ == normalized_content(s@),
{
    let mut out: Vec<char> = Vec::new();
    let mut i: usize = 0;
    while i < s.len()
        invariant
            0 <= i <= s@.len(),
            out@ == normalized_content(s@.take(i as int)),
        decreases s.len() - i,
    {
        let lower = lowercase(s[i]);
        let ghost prefix = lowercased(s@.take(i as int));
        assert(s@.take(i + 1).drop_last() =~= s@.take(i as int));
        assert(lowercased(s@.take(i + 1)) == prefix + lower@);
        let mut j: usize = 0;
        while j < lower.len()
            invariant
                0 <= j <= lower@.len(),
                out@ == (prefix + lower@.take(j as int)).filter(
                    |c: char| char_is_alphanumeric(c),
                ),
            decreases lower.len() - j,
        {
            let c = lower[j];
            let ghost before = prefix + lower@.take(j as int);
            assert(prefix + lower@.take(j + 1) =~= before.push(c));
            proof {
                before.lemma_filter_push(c, |c: char| char_is_alphanumeric(c));
            }
            if is_alphanumeric(c) {
                out.push(c);
            }
            j = j + 1;
        }
        assert(lower@.take(lower@.len() as int) =~= lower@);
        i = i + 1;
    }
    assert(s@.take(s@.len() as int) =~= s@);
    out
}

proof fn lemma_char_intersection_insert(a: Multiset<char>, b: Multiset<char>, x: char)
    ensures
        a.count(x) < b.count(x) ==> a.insert(x).intersection_with(b).len() == a.intersection_with(
            b,
        ).len() + 1,
        a.count(x) >= b.count(x) ==> a.insert(x).intersection_with(b).len()
            == a.intersection_with(b).len(),
{
    if a.count(x) < b.count(x) {
        assert(a.insert(x).intersection_with(b) =~= a.intersection_with(b).insert(x));
    } else {
        assert(a.insert(x).intersection_with(b) =~= a.intersection_with(b));
    }
}

/// The number of content characters (lower-cased, alphanumeric) that `first`
/// and `second` share, counted with multiplicity.
pub fn content_overlap(first: &[char], second: &[char]) -> (shared: usize)
    ensures
        shared == shared_content_chars(first@, second@),
{
    let a = normalized_content_chars(first);
    let mut available = normalized_content_chars(second);
    let ghost b = available@.to_multiset();
    let mut shared: usize = 0;
    let mut i: usize = 0;
    assert(a@.take(0) =~= Seq::<char>::empty());
    assert(Seq::<char>::empty().to_multiset().intersection_with(b) =~= Multiset::empty());
    assert(b.difference_with(Seq::<char>::empty().to_multiset()) =~= b);
    while i < a.len()
        invariant
            0 <= i <= a@.len(),
            available@.to_multiset() == b.difference_with(a@.take(i as int).to_multiset()),
            shared == a@.take(i as int).to_multiset().intersection_with(b).len(),
            shared <= i,
        decreases a.len() - i,
    {
        let ghost t = a@.take(i as int).to_multiset();
        let x = a[i];
        assert(a@.take(i + 1) =~= a@.take(i as int).push(x));
        assert(a@.take(i + 1).to_multiset() =~= t.insert(x));
        let mut k: usize = 0;
        while k < available.len() && available[k] != x
            invariant
                0 <= k <= available@.len(),
                forall|j: int| 0 <= j < k ==> available@[j] != x,
            decreases available.len() - k,
        {
            k = k + 1;
        }
        proof {
            lemma_char_intersection_insert(t, b, x);
        }
        if k < available.len() {
            proof {
                assert(available@.to_multiset().count(x) > 0);
                assert(b.difference_with(t.insert(x)) =~= b.difference_with(t).remove(x));
            }
            available.remove(k);
            shared = shared + 1;
        } else {
            proof {
                assert(!available@.contains(x));
                assert(b.difference_with(t.insert(x)) =~= b.difference_with(t));
            }
        }
        i = i + 1;
    }
    assert(a@.take(a@.len() as int) =~= a@);
    shared
}

/// The comparison units of native Markdown: the keys of its blocks, then the
/// keys of its non-blank lines.
pub open spec fn comparison_units(markdown: Seq<char>) -> Seq<KeyView> {
    crate::text::markdown_blocks(markdown).map_values(|b: Seq<char>| comparison_key(b))
        + crate::text::nonblank(crate::text::lines(markdown)).map_values(
        |l: Seq<char>| comparison_key(l),
    )
}

/// The comparison units of native Markdown.
pub fn comparison_units_of(markdown: &[char]) -> (units: Vec<ComparisonKey>)
    ensures
        key_views(units@) == comparison_units(markdown@),
{
    let blocks = markdown_blocks_of(markdown);
    let ghost bs = crate::text::markdown_blocks(markdown@);
    let mut units: Vec<ComparisonKey> = Vec::new();
    let mut i: usize = 0;
    while i < blocks.len()
        invariant
            0 <= i <= blocks@.len(),
            blocks@.len() == bs.len(),
            forall|j: int| 0 <= j < blocks@.len() ==> #[trigger] blocks@[j]@ == bs[j],
            key_views(units@) == bs.take(i as int).map_values(|b: Seq<char>| comparison_key(b)),
        decreases blocks.len() - i,
    {
        let key = ComparisonKey::new(&blocks[i]);
        let ghost before = units@;
        units.push(key);
        proof {
            assert(key_views(units@) =~= key_views(before).push(key@));
            assert(bs.take(i + 1) =~= bs.take(i as int).push(bs[i as int]));
            assert(bs.take(i + 1).map_values(|b: Seq<char>| comparison_key(b)) =~= bs.take(
                i as int,
            ).map_values(|b: Seq<char>| comparison_key(b)).push(comparison_key(bs[i as int])));
        }
        i = i + 1;
    }
    assert(bs.take(blocks@.len() as int) =~= bs);
    let lines = lines_of(markdown);
    let ghost ls = crate::text::lines(markdown@);
    let ghost head = key_views(units@);
    let mut k: usize = 0;
    while k < lines.len()
        invariant
            0 <= k <= lines@.len(),
            lines@.len() == ls.len(),
            forall|j: int| 0 <= j < lines@.len() ==> #[trigger] lines@[j]@ == ls[j],
            key_views(units@) == head + crate::text::nonblank(ls.take(k as int)).map_values(
                |l: Seq<char>| comparison_key(l),
            ),
        decreases lines.len() - k,
    {
        assert(ls.take(k + 1).drop_last() =~= ls.take(k as int));
        assert(ls.take(k + 1).last() == ls[k as int]);
        let ghost before = units@;
        let ghost nb = crate::text::nonblank(ls.take(k as int));
        if !is_blank_chars(&lines[k]) {
            let key = ComparisonKey::new(&lines[k]);
            units.push(key);
            proof {
                assert(key_views(units@) =~= key_views(before).push(key@));
                assert(crate::text::nonblank(ls.take(k + 1)) == nb.push(ls[k as int]));
                assert(nb.push(ls[k as int]).map_values(|l: Seq<char>| comparison_key(l))
                    =~= nb.map_values(|l: Seq<char>| comparison_key(l)).push(
                    comparison_key(ls[k as int]),
                ));
            }
        }
        k = k + 1;
    }
    assert(ls.take(lines@.len() as int) =~= ls);
    units
}

/// The tokens of `fragments` together, counted with multiplicity.
pub open spec fn fragment_tokens(fragments: Seq<Seq<char>>) -> Multiset<Seq<char>>
    decreases fragments.len(),
{
    if fragments.len() == 0 {
        Multiset::empty()
    } else {
        fragment_tokens(fragments.drop_last()).add(
            comparison_key(fragments.last()).tokens.to_multiset(),
        )
    }
}

proof fn lemma_novel_state_accounting(available: Multiset<Seq<char>>, fragments: Seq<Seq<char>>)
    ensures
        novel_state(available, fragments).0 == available.difference_with(fragment_tokens(fragments)),
        fragment_tokens(novel_state(available, fragments).1).subset_of(fragment_tokens(fragments)),
        fragment_tokens(fragments).difference_with(
            fragment_tokens(novel_state(available, fragments).1),
        ).subset_of(available),
        fragment_tokens(fragments).subset_of(available) ==> novel_state(available, fragments).1.len()
            == 0,
        forall|i: int|
            0 <= i < novel_state(available, fragments).1.len() ==> comparison_key(
                #[trigger] novel_state(available, fragments).1[i],
            ).tokens.len() > 0,
    decreases fragments.len(),
{
    if fragments.len() > 0 {
        let init = fragments.drop_last();
        let f = fragments.last();
        lemma_novel_state_accounting(available, init);
        let (avail, novel) = novel_state(available, init);
        let t = fragment_tokens(init);
        let n = fragment_tokens(novel);
        let u = comparison_key(f).tokens.to_multiset();
        let t2 = fragment_tokens(fragments);
        let (avail2, novel2) = novel_state(available, fragments);
        assert(t2 == t.add(u));
        assert(avail2 =~= available.difference_with(t2));
        if u.subset_of(avail) {
            assert(novel2 == novel);
            assert forall|x: Seq<char>| #[trigger] t2.difference_with(n).count(x) <= available.count(
                x,
            ) by {
                assert(t.difference_with(n).count(x) <= available.count(x));
                assert(u.count(x) <= avail.count(x));
                assert(n.count(x) <= t.count(x));
            }
        } else {
            assert(novel2 == novel.push(f));
            assert(novel.push(f).drop_last() =~= novel);
            let n2 = fragment_tokens(novel2);
            assert(n2 == n.add(u));
            assert(t2.difference_with(n2) =~= t.difference_with(n));
            assert(u.len() > 0) by {
                if u.len() == 0 {
                    assert(u =~= Multiset::empty());
                }
            }
            assert(comparison_key(f).tokens.len() > 0);
            assert forall|i: int| 0 <= i < novel2.len() implies comparison_key(
                #[trigger] novel2[i],
            ).tokens.len() > 0 by {
                if i < novel.len() {
                    assert(novel2[i] == novel[i]);
                }
            }
            if t2.subset_of(available) {
                assert forall|x: Seq<char>| #[trigger] u.count(x) <= avail.count(x) by {
                    assert(t2.count(x) <= available.count(x));
                }
            }
        }
        if t2.subset_of(available) {
            assert forall|x: Seq<char>| #[trigger] t.count(x) <= available.count(x) by {
                assert(t2.count(x) <= available.count(x));
            }
        }
    }
}

/// Each native token accounts for at most one occurrence in an OCR block:
/// the fragments that are not kept as novel carry, all together, no more of
/// any token than the native text has. Kept fragments carry a token, and a
/// block whose tokens all fit within the native ones adds nothing.
pub proof fn lemma_novel_fragments_count_tokens_once(block: Seq<char>, native: KeyView)
    ensures
        ({
            let fragments = crate::text::words(block);
            let kept = novel_state(native.tokens.to_multiset(), fragments).1;
            &&& fragment_tokens(fragments).difference_with(fragment_tokens(kept)).subset_of(
                native.tokens.to_multiset(),
            )
            &&& fragment_tokens(kept).subset_of(fragment_tokens(fragments))
            &&& forall|i: int|
                0 <= i < kept.len() ==> comparison_key(#[trigger] kept[i]).tokens.len() > 0
            &&& fragment_tokens(fragments).subset_of(native.tokens.to_multiset())
                ==> novel_fragments(block, native) is None
        }),
{
    lemma_novel_state_accounting(native.tokens.to_multiset(), crate::text::words(block));
}

} // verus!
