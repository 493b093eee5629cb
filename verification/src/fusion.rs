//! Fusion of a selective OCR run into per-page native Markdown: page-set
//! validation, the choice between native, OCR and fused content, hosted
//! pipeline recommendations and per-page provenance.
use std::collections::{BTreeMap, BTreeSet};
use vstd::prelude::*;
use crate::clock::{elapsed_ms, start_timer};
use crate::compare::{content_overlap, shared_content_chars};
use crate::timing::{equal_time_shares, time_share};
use crate::layout::{
    ocr_spans, ocr_text_spans, preserve_line_breaks, preserve_ocr_line_breaks, span_views,
    usable_lines, OcrLayoutPage, OcrSpanBox, SpanView,
};
use crate::merge::{merge_native_and_ocr, merged_markdown};
use crate::model::PageContentSource;
use crate::text::{
    char_is_alphanumeric, char_is_whitespace, chars_of, is_alphanumeric, is_blank_chars,
    is_whitespace, lines_of, nonblank, push_all, string_from_chars, trim, trim_chars,
    trim_end_newline_chars, trim_end_newlines, with_trailing_newline,
};

verus! {

/// The number of alphanumeric characters of `s`.
pub open spec fn alphanumeric_count(s: Seq<char>) -> nat
    decreases s.len(),
{
    if s.len() == 0 {
        0
    } else {
        alphanumeric_count(s.drop_last()) + if char_is_alphanumeric(s.last()) {
            1nat
        } else {
            0nat
        }
    }
}

/// The number of alphanumeric characters of `s`.
pub fn alphanumeric_count_of(s: &[char]) -> (n: usize)
    ensures
        n == alphanumeric_count(s@),
        n <= s@.len(),
{
    let mut n: usize = 0;
    let mut i: usize = 0;
    while i < s.len()
        invariant
            0 <= i <= s@.len(),
            n == alphanumeric_count(s@.take(i as int)),
            n <= i,
        decreases s.len() - i,
    {
        assert(s@.take(i + 1).drop_last() =~= s@.take(i as int));
        if is_alphanumeric(s[i]) {
            n = n + 1;
        }
        i = i + 1;
    }
    assert(s@.take(s@.len() as int) =~= s@);
    n
}

/// A `String` holding the characters of `s`.
pub fn owned_text(s: &str) -> (r: String)
    ensures
        r@ == s@,
{
    let chars = chars_of(s);
    string_from_chars(&chars)
}

/// The number of characters of `s` that are not white space.
pub open spec fn visible_count(s: Seq<char>) -> nat
    decreases s.len(),
{
    if s.len() == 0 {
        0
    } else {
        visible_count(s.drop_last()) + if char_is_whitespace(s.last()) {
            0nat
        } else {
            1nat
        }
    }
}

/// Whole-number evidence of a text candidate's quality, from which its
/// score is computed.
pub struct TextCandidateCounts {
    /// Alphanumeric characters.
    pub alphanumeric_chars: usize,
    /// Characters other than white space, at least one.
    pub visible_chars: usize,
    /// Lines that are not blank, at least one.
    pub nonempty_lines: usize,
}

/// The evidence of a usable text candidate: clean by the text-quality
/// checks, not blank, with at least one alphanumeric character. It counts
/// the alphanumeric characters, the visible characters and the non-blank
/// lines, the last two at least one.
pub open spec fn candidate_counts(markdown: Seq<char>, text_is_clean: bool) -> Option<
    (nat, nat, nat),
> {
    if text_is_clean && trim(markdown).len() > 0 && alphanumeric_count(markdown) > 0 {
        let visible = visible_count(markdown);
        let lines = nonblank(crate::text::lines(markdown)).len();
        Some(
            (
                alphanumeric_count(markdown),
                if visible >= 1 {
                    visible
                } else {
                    1
                },
                if lines >= 1 {
                    lines
                } else {
                    1
                },
            ),
        )
    } else {
        None
    }
}

fn visible_count_of(s: &[char]) -> (n: usize)
    ensures
        n == visible_count(s@),
{
    let mut n: usize = 0;
    let mut i: usize = 0;
    while i < s.len()
        invariant
            0 <= i <= s@.len(),
            n == visible_count(s@.take(i as int)),
            n <= i,
        decreases s.len() - i,
    {
        assert(s@.take(i + 1).drop_last() =~= s@.take(i as int));
        if !is_whitespace(s[i]) {
            n = n + 1;
        }
        i = i + 1;
    }
    assert(s@.take(s@.len() as int) =~= s@);
    n
}

fn nonblank_line_count(s: &[char]) -> (n: usize)
    ensures
        n == nonblank(crate::text::lines(s@)).len(),
{
    let lines = lines_of(s);
    let ghost ls = crate::text::lines(s@);
    let mut n: usize = 0;
    let mut i: usize = 0;
    while i < lines.len()
        invariant
            0 <= i <= lines@.len(),
            lines@.len() == ls.len(),
            forall|k: int| 0 <= k < lines@.len() ==> #[trigger] lines@[k]@ == ls[k],
            n == nonblank(ls.take(i as int)).len(),
            n <= i,
        decreases lines.len() - i,
    {
        assert(ls.take(i + 1).drop_last() =~= ls.take(i as int));
        assert(ls.take(i + 1).last() == lines@[i as int]@);
        if !is_blank_chars(&lines[i]) {
            n = n + 1;
        }
        i = i + 1;
    }
    assert(ls.take(ls.len() as int) =~= ls);
    n
}

/// Counts the evidence of a text candidate that is clean by the
/// text-quality checks (`text_is_clean`), not blank and with at least one
/// alphanumeric character; none for any other text.
pub fn text_candidate_counts(markdown: &str, text_is_clean: bool) -> (r: Option<
    TextCandidateCounts,
>)
    ensures
        match candidate_counts(markdown@, text_is_clean) {
            Some((alphanumeric, visible, lines)) => r matches Some(c) && c.alphanumeric_chars
                == alphanumeric && c.visible_chars == visible && c.nonempty_lines == lines,
            None => r is None,
        },
{
    let chars = chars_of(markdown);
    let trimmed = trim_chars(&chars);
    if !text_is_clean || trimmed.len() == 0 {
        return None;
    }
    let alphanumeric = alphanumeric_count_of(&chars);
    if alphanumeric == 0 {
        return None;
    }
    let visible = visible_count_of(&chars);
    let lines = nonblank_line_count(&chars);
    Some(
        TextCandidateCounts {
            alphanumeric_chars: alphanumeric,
            visible_chars: if visible >= 1 {
                visible
            } else {
                1
            },
            nonempty_lines: if lines >= 1 {
                lines
            } else {
                1
            },
        },
    )
}

/// Origin of a trustworthy native-text candidate retained for adaptive OCR.
#[derive(Clone, Copy, Debug, PartialEq, Eq, Structural)]
pub enum NativeCandidateOrigin {
    /// Text produced by the normal native extractor.
    Extractor,
    /// Positioned text independently recovered through PDFium.
    Pdfium,
}

/// How a candidate's origin is named in warnings.
pub open spec fn origin_description(origin: NativeCandidateOrigin) -> Seq<char> {
    match origin {
        NativeCandidateOrigin::Extractor => "native extraction"@,
        NativeCandidateOrigin::Pdfium => "PDFium native recovery"@,
    }
}

impl NativeCandidateOrigin {
    /// How the origin is named in warnings.
    pub fn description(self) -> (d: &'static str)
        ensures
            d@ == origin_description(self),
    {
        match self {
            NativeCandidateOrigin::Extractor => "native extraction",
            NativeCandidateOrigin::Pdfium => "PDFium native recovery",
        }
    }
}

/// Clean native text retained while an ambiguous page is compared with OCR.
pub struct NativeFallbackCandidate {
    pub markdown: String,
    pub origin: NativeCandidateOrigin,
}

/// Native Markdown is worth keeping as a candidate: its text is clean (as
/// the text-quality checks judged it), not blank, and holds at least eight
/// alphanumeric characters.
pub open spec fn is_native_candidate(markdown: Seq<char>, text_is_clean: bool) -> bool {
    text_is_clean && trim(markdown).len() > 0 && alphanumeric_count(markdown) >= 8
}

/// Retains native Markdown as a candidate for post-OCR comparison when it is
/// trustworthy: clean by the text-quality checks (`text_is_clean`), not
/// blank, and with at least eight alphanumeric characters. A candidate need
/// not be complete: a clean native header can still be fused with an
/// image-backed OCR body.
pub fn assess_native_candidate(
    markdown: String,
    origin: NativeCandidateOrigin,
    text_is_clean: bool,
) -> (r: Option<NativeFallbackCandidate>)
    ensures
        r is Some <==> is_native_candidate(markdown@, text_is_clean),
        r matches Some(c) ==> c.markdown@ == markdown@ && c.origin == origin,
{
    let chars = chars_of(markdown.as_str());
    let trimmed = trim_chars(&chars);
    if !text_is_clean || trimmed.len() == 0 {
        return None;
    }
    if alphanumeric_count_of(&chars) >= 8 {
        Some(NativeFallbackCandidate { markdown, origin })
    } else {
        None
    }
}

/// The outcome of comparing a native candidate with OCR.
pub struct AdaptiveContentChoice {
    pub markdown: String,
    pub source: PageContentSource,
    pub warning: String,
    pub recommend_hosted: bool,
}

/// Spec-level outcome of the comparison: Markdown, source, warning, and
/// whether the hosted pipeline is recommended.
pub struct AdaptiveOutcome {
    pub markdown: Seq<char>,
    pub source: PageContentSource,
    pub warning: Seq<char>,
    pub recommend_hosted: bool,
}

/// The number of alphanumeric characters of usable OCR text: clean by the
/// text-quality checks, not blank, with at least one alphanumeric character.
pub open spec fn usable_ocr_chars(ocr: Seq<char>, ocr_text_clean: bool) -> Option<nat> {
    if ocr_text_clean && trim(ocr).len() > 0 && alphanumeric_count(ocr) > 0 {
        Some(alphanumeric_count(ocr))
    } else {
        None
    }
}

/// The choice between a trustworthy native candidate and OCR of the same
/// page. Weak or unusable OCR keeps the native text and recommends the
/// hosted pipeline; OCR that covers most of the native content without
/// adding material content keeps the native text and still recommends it;
/// OCR that scores materially lower and is not over ten percent longer
/// keeps the native text; otherwise the two are fused.
pub open spec fn adaptive_choice(
    native: Seq<char>,
    origin: NativeCandidateOrigin,
    ocr: Seq<char>,
    ocr_text_clean: bool,
    weak_ocr: bool,
    ocr_scores_lower: bool,
) -> AdaptiveOutcome {
    let description = origin_description(origin);
    match usable_ocr_chars(ocr, ocr_text_clean) {
        None => AdaptiveOutcome {
            markdown: with_trailing_newline(native),
            source: PageContentSource::Native,
            warning: "kept trustworthy "@ + description + " because OCR was weak or unusable"@,
            recommend_hosted: true,
        },
        Some(ocr_chars) => if weak_ocr {
            AdaptiveOutcome {
                markdown: with_trailing_newline(native),
                source: PageContentSource::Native,
                warning: "kept trustworthy "@ + description + " because OCR was weak or unusable"@,
                recommend_hosted: true,
            }
        } else {
            let native_chars = alphanumeric_count(native);
            let shared = shared_content_chars(native, ocr);
            let novel: int = if ocr_chars >= shared {
                ocr_chars - shared
            } else {
                0
            };
            let material_novelty = novel >= 2 && novel * 8 >= (if ocr_chars >= 1 {
                ocr_chars as int
            } else {
                1
            });
            let covered = shared * 4 >= (if native_chars >= 1 {
                native_chars as int
            } else {
                1
            }) * 3;
            let capped: int = if native_chars * 11 <= usize::MAX {
                (native_chars * 11) as int
            } else {
                usize::MAX as int
            };
            if covered && !material_novelty {
                AdaptiveOutcome {
                    markdown: with_trailing_newline(native),
                    source: PageContentSource::Native,
                    warning: "kept trustworthy "@ + description
                        + " because OCR added no material coverage"@,
                    recommend_hosted: true,
                }
            } else if ocr_scores_lower && ocr_chars * 10 <= capped {
                AdaptiveOutcome {
                    markdown: with_trailing_newline(native),
                    source: PageContentSource::Native,
                    warning: "kept higher-quality "@ + description + " after comparing OCR"@,
                    recommend_hosted: false,
                }
            } else {
                let (markdown, source) = merged_markdown(native, ocr);
                AdaptiveOutcome {
                    markdown,
                    source,
                    warning: if source == PageContentSource::Native {
                        "kept trustworthy "@ + description + " because OCR duplicated its content"@
                    } else {
                        "fused trustworthy "@ + description + " with complementary OCR"@
                    },
                    recommend_hosted: false,
                }
            }
        },
    }
}

fn describe(prefix: &str, origin: NativeCandidateOrigin, suffix: &str) -> (r: String)
    ensures
        r@ == prefix@ + origin_description(origin) + suffix@,
{
    let mut v = chars_of(prefix);
    let d = chars_of(origin.description());
    push_all(&mut v, &d);
    let s = chars_of(suffix);
    push_all(&mut v, &s);
    string_from_chars(&v)
}

fn native_with_newline(native: &[char]) -> (r: String)
    ensures
        r@ == with_trailing_newline(native@),
{
    let mut v = trim_end_newline_chars(native);
    v.push('\n');
    string_from_chars(&v)
}

/// Compares a trustworthy native candidate with the OCR Markdown of the same
/// page. `ocr_text_clean` is the text-quality verdict on the OCR Markdown,
/// `weak_ocr` whether its mean confidence is missing or below the hosted
/// threshold, and `ocr_scores_lower` whether its quality score falls more
/// than 0.12 below the candidate's.
pub fn choose_adaptive_content(
    native: &NativeFallbackCandidate,
    ocr: &str,
    ocr_text_clean: bool,
    weak_ocr: bool,
    ocr_scores_lower: bool,
) -> (choice: AdaptiveContentChoice)
    ensures
        (AdaptiveOutcome {
            markdown: choice.markdown@,
            source: choice.source,
            warning: choice.warning@,
            recommend_hosted: choice.recommend_hosted,
        }) == adaptive_choice(
            native.markdown@,
            native.origin,
            ocr@,
            ocr_text_clean,
            weak_ocr,
            ocr_scores_lower,
        ),
{
    let native_chars = chars_of(native.markdown.as_str());
    let ocr_chars = chars_of(ocr);
    let ocr_trimmed = trim_chars(&ocr_chars);
    let ocr_count = alphanumeric_count_of(&ocr_chars);
    let usable = ocr_text_clean && ocr_trimmed.len() > 0 && ocr_count > 0;
    if !usable || weak_ocr {
        return AdaptiveContentChoice {
            markdown: native_with_newline(&native_chars),
            source: PageContentSource::Native,
            warning: describe(
                "kept trustworthy ",
                native.origin,
                " because OCR was weak or unusable",
            ),
            recommend_hosted: true,
        };
    }
    let native_count = alphanumeric_count_of(&native_chars);
    let shared = content_overlap(&native_chars, &ocr_chars);
    let novel: usize = if ocr_count >= shared {
        ocr_count - shared
    } else {
        0
    };
    let ocr_floor: u128 = if ocr_count >= 1 {
        ocr_count as u128
    } else {
        1
    };
    let native_floor: u128 = if native_count >= 1 {
        native_count as u128
    } else {
        1
    };
    let material_novelty = novel >= 2 && (novel as u128) * 8 >= ocr_floor;
    let covered = (shared as u128) * 4 >= native_floor * 3;
    if covered && !material_novelty {
        return AdaptiveContentChoice {
            markdown: native_with_newline(&native_chars),
            source: PageContentSource::Native,
            warning: describe(
                "kept trustworthy ",
                native.origin,
                " because OCR added no material coverage",
            ),
            recommend_hosted: true,
        };
    }
    let capped: u128 = if (native_count as u128) * 11 <= usize::MAX as u128 {
        (native_count as u128) * 11
    } else {
        usize::MAX as u128
    };
    if ocr_scores_lower && (ocr_count as u128) * 10 <= capped {
        return AdaptiveContentChoice {
            markdown: native_with_newline(&native_chars),
            source: PageContentSource::Native,
            warning: describe("kept higher-quality ", native.origin, " after comparing OCR"),
            recommend_hosted: false,
        };
    }
    let (markdown, source) = merge_native_and_ocr(native.markdown.as_str(), ocr);
    let warning = match source {
        PageContentSource::Native => describe(
            "kept trustworthy ",
            native.origin,
            " because OCR duplicated its content",
        ),
        _ => describe("fused trustworthy ", native.origin, " with complementary OCR"),
    };
    AdaptiveContentChoice { markdown, source, warning, recommend_hosted: false }
}

/// The decimal digit `d` as a character.
pub open spec fn digit_char(d: nat) -> char {
    (d + 48) as char
}

/// The decimal representation of `n`.
pub open spec fn decimal(n: nat) -> Seq<char>
    decreases n,
{
    if n < 10 {
        seq![digit_char(n)]
    } else {
        decimal(n / 10).push(digit_char(n % 10))
    }
}

/// The decimal representation of `n`.
pub fn decimal_of(n: usize) -> (v: Vec<char>)
    ensures
        v@ == decimal(n as nat),
    decreases n,
{
    if n < 10 {
        let c = ((n as u8) + 48) as char;
        let mut v: Vec<char> = Vec::new();
        v.push(c);
        assert(v@ =~= seq![digit_char(n as nat)]);
        v
    } else {
        let mut v = decimal_of(n / 10);
        let c = (((n % 10) as u8) + 48) as char;
        v.push(c);
        v
    }
}

/// Exact OCR model identity retained in page provenance.
pub struct OcrModelIdentity {
    pub name: String,
    pub revision: String,
}

/// Per-page OCR processing timings, in milliseconds.
pub struct VisionTimings {
    pub render_ms: u64,
    pub ocr_ms: u64,
    pub assembly_ms: u64,
}

/// Markdown of one page from native extraction.
pub struct PageMarkdownResult {
    /// 0-indexed page number.
    pub page: u32,
    /// Formatted Markdown for this page.
    pub markdown: String,
    /// Native text on this page is unreliable.
    pub needs_ocr: bool,
    /// Machine-readable OCR reason when the cause is known.
    pub ocr_reason: Option<String>,
}

/// How OCR output for a routed page may take part in fusion.
#[derive(Clone, Copy, Debug, PartialEq, Eq, Structural)]
pub enum OcrFusionRoute {
    /// Ordinary full-page OCR replacement or adaptive fusion.
    FullPage,
    /// The native page is clean; only a table found inside its image regions
    /// may be appended.
    SupplementalRegions,
}

/// One page that went through OCR.
pub struct RoutedOcrPage {
    /// 1-indexed page number of the rendered page.
    pub page_number: u32,
    /// The rendered image size and the recognized lines.
    pub layout: OcrLayoutPage,
    /// Markdown that the layout pipeline assembled from the page's OCR items
    /// for its route: the whole page for a full-page route, the complete
    /// table found inside the image regions (empty when none) for a
    /// supplemental route.
    pub assembled_markdown: String,
    /// The mean recognition confidence is missing or below the hosted
    /// recommendation threshold.
    pub weak_confidence: bool,
    pub model: OcrModelIdentity,
    pub processing_time_ms: u64,
    /// Warnings of the OCR engine.
    pub warnings: Vec<String>,
}

/// A selective OCR run.
pub struct OcrRun {
    pub pages: Vec<RoutedOcrPage>,
    pub render_time_ms: u64,
    pub ocr_time_ms: u64,
}

/// A native candidate together with what the text-quality checks found when
/// comparing the page's OCR Markdown with it.
pub struct AdaptiveEvidence {
    pub candidate: NativeFallbackCandidate,
    pub ocr_text_clean: bool,
    pub ocr_scores_lower: bool,
}

/// Source, model, timing and fallback metadata of one page.
pub struct PageProvenance {
    /// 1-indexed page number.
    pub page_number: u32,
    pub source: PageContentSource,
    pub ocr_model: Option<OcrModelIdentity>,
    /// OCR rendered and processed the page, so the run's render resolution
    /// and the page's OCR confidence apply to it.
    pub ocr_processed: bool,
    pub timings: VisionTimings,
    pub warnings: Vec<String>,
    pub hosted_recommended: bool,
}

/// Final Markdown and provenance of one page.
pub struct FusedPageMarkdown {
    /// 1-indexed page number.
    pub page_number: u32,
    pub markdown: String,
    /// Accepted OCR spans in recognition order; empty unless OCR ran for the
    /// page, whichever content the Markdown settled on.
    pub spans: Vec<OcrSpanBox>,
    pub provenance: PageProvenance,
}

/// Output of fusing a selective OCR run into native page extraction.
pub struct FusedPages {
    /// Pages in the order of the native input.
    pub pages: Vec<FusedPageMarkdown>,
    pub render_time_ms: u64,
    pub ocr_time_ms: u64,
}

/// Invalid page sets.
#[derive(Clone, Copy, Debug, PartialEq, Eq, Structural)]
pub enum OcrFusionError {
    /// A 0-indexed native page could not be converted to 1-indexed form.
    PageOverflow,
    /// Native input repeated a page number.
    DuplicateNativePage { page: u32 },
    /// OCR input repeated a page number.
    DuplicateOcrPage { page: u32 },
    /// OCR returned a page that was not part of native extraction.
    UnexpectedOcrPage { page: u32 },
    /// An OCR page had no fusion route.
    MissingOcrRoute { page: u32 },
}

/// The 1-indexed numbers of native pages.
pub open spec fn native_numbers(natives: Seq<PageMarkdownResult>) -> Set<u32>
    decreases natives.len(),
{
    if natives.len() == 0 {
        Set::empty()
    } else {
        native_numbers(natives.drop_last()).insert((natives.last().page + 1) as u32)
    }
}

/// The first problem with the native pages, in input order: a page that
/// cannot be numbered from 1, or a repeated page.
pub open spec fn native_error(natives: Seq<PageMarkdownResult>) -> Option<OcrFusionError>
    decreases natives.len(),
{
    if natives.len() == 0 {
        None
    } else {
        match native_error(natives.drop_last()) {
            Some(e) => Some(e),
            None => {
                let page = natives.last().page;
                if page == u32::MAX {
                    Some(OcrFusionError::PageOverflow)
                } else if native_numbers(natives.drop_last()).contains((page + 1) as u32) {
                    Some(OcrFusionError::DuplicateNativePage { page: (page + 1) as u32 })
                } else {
                    None
                }
            },
        }
    }
}

/// The page numbers of OCR pages.
pub open spec fn ocr_numbers(pages: Seq<RoutedOcrPage>) -> Set<u32>
    decreases pages.len(),
{
    if pages.len() == 0 {
        Set::empty()
    } else {
        ocr_numbers(pages.drop_last()).insert(pages.last().page_number)
    }
}

/// The first problem with the OCR pages, in input order: a page that native
/// extraction did not produce, or a repeated page.
pub open spec fn ocr_error(natives: Set<u32>, pages: Seq<RoutedOcrPage>) -> Option<OcrFusionError>
    decreases pages.len(),
{
    if pages.len() == 0 {
        None
    } else {
        match ocr_error(natives, pages.drop_last()) {
            Some(e) => Some(e),
            None => {
                let page = pages.last().page_number;
                if !natives.contains(page) {
                    Some(OcrFusionError::UnexpectedOcrPage { page })
                } else if ocr_numbers(pages.drop_last()).contains(page) {
                    Some(OcrFusionError::DuplicateOcrPage { page })
                } else {
                    None
                }
            },
        }
    }
}

/// The index of the OCR page numbered `number`, if any.
pub open spec fn ocr_page_for(pages: Seq<RoutedOcrPage>, number: u32) -> Option<int>
    decreases pages.len(),
{
    if pages.len() == 0 {
        None
    } else if pages.last().page_number == number {
        Some(pages.len() - 1)
    } else {
        ocr_page_for(pages.drop_last(), number)
    }
}

/// The OCR page numbered `n` sits at index `i`.
pub open spec fn indexed_at(pages: Seq<RoutedOcrPage>, n: u32, i: usize) -> bool {
    ocr_page_for(pages, n) == Some(i as int)
}

/// The first native page, in input order, whose OCR page has no route.
pub open spec fn route_error(
    natives: Seq<PageMarkdownResult>,
    pages: Seq<RoutedOcrPage>,
    routes: Map<u32, OcrFusionRoute>,
) -> Option<OcrFusionError>
    decreases natives.len(),
{
    if natives.len() == 0 {
        None
    } else {
        match route_error(natives.drop_last(), pages, routes) {
            Some(e) => Some(e),
            None => {
                let number = natives.last().page + 1;
                if ocr_page_for(pages, number as u32) is Some && !routes.contains_key(number as u32) {
                    Some(OcrFusionError::MissingOcrRoute { page: number as u32 })
                } else {
                    None
                }
            },
        }
    }
}

/// The error fusion reports, if any: native problems first, then OCR
/// problems, then missing routes.
pub open spec fn fusion_error(
    natives: Seq<PageMarkdownResult>,
    pages: Seq<RoutedOcrPage>,
    routes: Map<u32, OcrFusionRoute>,
) -> Option<OcrFusionError> {
    match native_error(natives) {
        Some(e) => Some(e),
        None => match ocr_error(native_numbers(natives), pages) {
            Some(e) => Some(e),
            None => route_error(natives, pages, routes),
        },
    }
}

/// What fusion settles for one page.
pub struct PageOutcome {
    pub markdown: Seq<char>,
    pub source: PageContentSource,
    pub ocr_model: Option<(Seq<char>, Seq<char>)>,
    pub ocr_processed: bool,
    pub spans: Seq<SpanView>,
    pub render_ms: u64,
    pub ocr_ms: u64,
    pub warnings: Seq<Seq<char>>,
    pub hosted_recommended: bool,
}

pub open spec fn string_views(v: Seq<String>) -> Seq<Seq<char>> {
    v.map_values(|s: String| s@)
}

/// The outcome recorded for a fused page.
pub open spec fn outcome_of(p: FusedPageMarkdown) -> PageOutcome {
    PageOutcome {
        markdown: p.markdown@,
        source: p.provenance.source,
        ocr_model: match p.provenance.ocr_model {
            Some(m) => Some((m.name@, m.revision@)),
            None => None,
        },
        ocr_processed: p.provenance.ocr_processed,
        spans: span_views(p.spans@),
        render_ms: p.provenance.timings.render_ms,
        ocr_ms: p.provenance.timings.ocr_ms,
        warnings: string_views(p.provenance.warnings@),
        hosted_recommended: p.provenance.hosted_recommended,
    }
}

/// The outcome of a page that OCR did not process: its native Markdown, and
/// a hosted recommendation when it needed OCR.
pub open spec fn unprocessed_outcome(native: PageMarkdownResult) -> PageOutcome {
    PageOutcome {
        markdown: native.markdown@,
        source: PageContentSource::Native,
        ocr_model: None,
        ocr_processed: false,
        spans: Seq::empty(),
        render_ms: 0,
        ocr_ms: 0,
        warnings: if native.needs_ocr {
            seq!["page was recommended for OCR but was not processed"@]
        } else {
            Seq::empty()
        },
        hosted_recommended: native.needs_ocr,
    }
}

/// The number of recognized lines that fusion cannot use: blank text or an
/// unusable box.
pub open spec fn discarded_lines(page: OcrLayoutPage) -> nat {
    (page.lines@.len() - usable_lines(
        page.lines@,
        crate::layout::pixel_units(page.image_width),
        crate::layout::pixel_units(page.image_height),
    ).len()) as nat
}

/// The OCR Markdown a page contributes: line breaks restored for a full-page
/// route, the assembled table for a supplemental one.
pub open spec fn route_markdown(page: RoutedOcrPage, route: OcrFusionRoute) -> Seq<char> {
    match route {
        OcrFusionRoute::FullPage => preserve_line_breaks(
            page.assembled_markdown@,
            page.layout.lines@,
            crate::layout::pixel_units(page.layout.image_width),
            crate::layout::pixel_units(page.layout.image_height),
        ),
        OcrFusionRoute::SupplementalRegions => page.assembled_markdown@,
    }
}

/// The warnings of an OCR page before the content choice: discarded lines,
/// the engine's own warnings, and a supplemental route that found no table.
pub open spec fn ocr_warnings(page: RoutedOcrPage, route: OcrFusionRoute) -> Seq<Seq<char>> {
    let discarded = discarded_lines(page.layout);
    let first = if discarded > 0 {
        seq!["discarded "@ + decimal(discarded) + " OCR spans with unusable text or geometry"@]
    } else {
        Seq::empty()
    };
    let engine = first + string_views(page.warnings@);
    if route == OcrFusionRoute::SupplementalRegions && page.assembled_markdown@.len() == 0 {
        engine.push("image-region OCR found no valid table; kept native content"@)
    } else {
        engine
    }
}

/// The outcome of a page that went through OCR. A trustworthy native
/// candidate of a page that needed OCR is compared with the OCR content; a
/// page that needed OCR, or had no native text, takes the OCR content; a
/// clean page gets the OCR additions fused in. A page that needed OCR
/// recommends the hosted pipeline when its content is blank, its OCR weak,
/// or the comparison asked for it.
pub open spec fn ocr_outcome(
    native: PageMarkdownResult,
    page: RoutedOcrPage,
    route: OcrFusionRoute,
    evidence: Option<AdaptiveEvidence>,
    render_ms: u64,
) -> PageOutcome {
    let ocr = route_markdown(page, route);
    let warnings = ocr_warnings(page, route);
    let (markdown, source, adaptive_hosted, warnings2) = match evidence {
        Some(ev) if native.needs_ocr => {
            let choice = adaptive_choice(
                ev.candidate.markdown@,
                ev.candidate.origin,
                ocr,
                ev.ocr_text_clean,
                page.weak_confidence,
                ev.ocr_scores_lower,
            );
            (choice.markdown, choice.source, choice.recommend_hosted, warnings.push(choice.warning))
        },
        _ => if trim(native.markdown@).len() == 0 || native.needs_ocr {
            (ocr, PageContentSource::Ocr, false, warnings)
        } else {
            let (m, s) = merged_markdown(native.markdown@, ocr);
            (m, s, false, warnings)
        },
    };
    let blank = trim(markdown).len() == 0;
    PageOutcome {
        markdown,
        source,
        ocr_model: Some((page.model.name@, page.model.revision@)),
        ocr_processed: true,
        spans: ocr_spans(
            page.layout.lines@,
            crate::layout::pixel_units(page.layout.image_width),
            crate::layout::pixel_units(page.layout.image_height),
        ),
        render_ms,
        ocr_ms: page.processing_time_ms,
        warnings: if native.needs_ocr && blank {
            warnings2.push("OCR produced no usable text"@)
        } else {
            warnings2
        },
        hosted_recommended: native.needs_ocr && (blank || page.weak_confidence || adaptive_hosted),
    }
}

/// The outcome of native page `native` in a fusion without errors.
pub open spec fn expected_outcome(
    native: PageMarkdownResult,
    run: OcrRun,
    routes: Map<u32, OcrFusionRoute>,
    candidates: Map<u32, AdaptiveEvidence>,
) -> PageOutcome {
    let number = native.page + 1;
    match ocr_page_for(run.pages@, number as u32) {
        None => unprocessed_outcome(native),
        Some(i) => ocr_outcome(
            native,
            run.pages@[i],
            routes[number as u32],
            if candidates.contains_key(number as u32) {
                Some(candidates[number as u32])
            } else {
                None
            },
            crate::timing::time_share(run.render_time_ms, run.pages@.len(), i) as u64,
        ),
    }
}

fn concat3(a: &str, b: &[char], c: &str) -> (r: String)
    ensures
        r@ == a@ + b@ + c@,
{
    let mut v = chars_of(a);
    push_all(&mut v, b);
    let tail = chars_of(c);
    push_all(&mut v, &tail);
    string_from_chars(&v)
}

fn clone_string(s: &String) -> (r: String)
    ensures
        r@ == s@,
{
    owned_text(s.as_str())
}

proof fn lemma_string_views_push(v: Seq<String>, s: String)
    ensures
        string_views(v.push(s)) == string_views(v).push(s@),
{
    assert(string_views(v.push(s)) =~= string_views(v).push(s@));
}

fn push_warning(warnings: &mut Vec<String>, w: String)
    ensures
        string_views(final(warnings)@) == string_views(old(warnings)@).push(w@),
{
    proof {
        lemma_string_views_push(warnings@, w);
    }
    warnings.push(w);
}

/// Content, source, warnings and hosted recommendation settled for a page.
pub struct PageFusion {
    pub markdown: String,
    pub source: PageContentSource,
    pub warnings: Vec<String>,
    pub hosted_recommended: bool,
}

/// Settles the content of a page that went through OCR.
pub fn fuse_routed_page(
    native: &PageMarkdownResult,
    page: &RoutedOcrPage,
    route: OcrFusionRoute,
    evidence: Option<&AdaptiveEvidence>,
) -> (r: PageFusion)
    ensures
        ({
            let o = ocr_outcome(
                *native,
                *page,
                route,
                match evidence {
                    Some(e) => Some(*e),
                    None => None,
                },
                0,
            );
            &&& r.markdown@ == o.markdown
            &&& r.source == o.source
            &&& string_views(r.warnings@) == o.warnings
            &&& r.hosted_recommended == o.hosted_recommended
        }),
{
    let mut warnings: Vec<String> = Vec::new();
    let usable = crate::layout::usable_line_count(&page.layout);
    let discarded = page.layout.lines.len() - usable;
    if discarded > 0 {
        let digits = decimal_of(discarded);
        let w = concat3("discarded ", &digits, " OCR spans with unusable text or geometry");
        push_warning(&mut warnings, w);
    }
    assert(string_views(warnings@) =~= (if discarded > 0 {
        seq!["discarded "@ + decimal(discarded as nat) + " OCR spans with unusable text or geometry"@]
    } else {
        Seq::<Seq<char>>::empty()
    }));
    let ghost first = string_views(warnings@);
    let mut k: usize = 0;
    while k < page.warnings.len()
        invariant
            0 <= k <= page.warnings@.len(),
            string_views(warnings@) == first + string_views(page.warnings@).take(k as int),
        decreases page.warnings.len() - k,
    {
        let w = clone_string(&page.warnings[k]);
        push_warning(&mut warnings, w);
        assert(string_views(page.warnings@).take(k + 1) =~= string_views(page.warnings@).take(
            k as int,
        ).push(page.warnings@[k as int]@));
        k = k + 1;
    }
    assert(string_views(page.warnings@).take(page.warnings@.len() as int) =~= string_views(
        page.warnings@,
    ));
    let ocr = match route {
        OcrFusionRoute::FullPage => preserve_ocr_line_breaks(
            page.assembled_markdown.as_str(),
            &page.layout,
        ),
        OcrFusionRoute::SupplementalRegions => {
            let assembled = chars_of(page.assembled_markdown.as_str());
            if assembled.len() == 0 {
                let w = owned_text("image-region OCR found no valid table; kept native content");
                push_warning(&mut warnings, w);
            }
            clone_string(&page.assembled_markdown)
        },
    };
    assert(string_views(warnings@) == ocr_warnings(*page, route));
    let native_chars = chars_of(native.markdown.as_str());
    let native_trimmed = trim_chars(&native_chars);
    let (markdown, source, adaptive_hosted) = match evidence {
        Some(ev) if native.needs_ocr => {
            let choice = choose_adaptive_content(
                &ev.candidate,
                ocr.as_str(),
                ev.ocr_text_clean,
                page.weak_confidence,
                ev.ocr_scores_lower,
            );
            push_warning(&mut warnings, choice.warning);
            (choice.markdown, choice.source, choice.recommend_hosted)
        },
        _ => {
            if native_trimmed.len() == 0 || native.needs_ocr {
                (ocr, PageContentSource::Ocr, false)
            } else {
                let (m, s) = merge_native_and_ocr(native.markdown.as_str(), ocr.as_str());
                (m, s, false)
            }
        },
    };
    let md_chars = chars_of(markdown.as_str());
    let md_trimmed = trim_chars(&md_chars);
    let blank = md_trimmed.len() == 0;
    if native.needs_ocr && blank {
        let w = owned_text("OCR produced no usable text");
        push_warning(&mut warnings, w);
    }
    let hosted = native.needs_ocr && (blank || page.weak_confidence || adaptive_hosted);
    PageFusion { markdown, source, warnings, hosted_recommended: hosted }
}

/// Page numbers compare as integers, as the B-tree collections need.
pub open spec fn page_numbers_ordered() -> bool {
    vstd::laws_cmp::obeys_cmp::<u32>()
}

proof fn lemma_page_numbers_ordered()
    ensures
        page_numbers_ordered(),
{
    broadcast use vstd::laws_cmp::group_laws_cmp;
}

proof fn lemma_native_error_extends(natives: Seq<PageMarkdownResult>, k: int)
    requires
        0 <= k <= natives.len(),
        native_error(natives.take(k)) is Some,
    ensures
        native_error(natives) == native_error(natives.take(k)),
    decreases natives.len() - k,
{
    if k < natives.len() {
        assert(natives.take(k + 1).drop_last() =~= natives.take(k));
        lemma_native_error_extends(natives, k + 1);
    } else {
        assert(natives.take(k) =~= natives);
    }
}

proof fn lemma_ocr_error_extends(numbers: Set<u32>, pages: Seq<RoutedOcrPage>, k: int)
    requires
        0 <= k <= pages.len(),
        ocr_error(numbers, pages.take(k)) is Some,
    ensures
        ocr_error(numbers, pages) == ocr_error(numbers, pages.take(k)),
    decreases pages.len() - k,
{
    if k < pages.len() {
        assert(pages.take(k + 1).drop_last() =~= pages.take(k));
        lemma_ocr_error_extends(numbers, pages, k + 1);
    } else {
        assert(pages.take(k) =~= pages);
    }
}

proof fn lemma_route_error_extends(
    natives: Seq<PageMarkdownResult>,
    pages: Seq<RoutedOcrPage>,
    routes: Map<u32, OcrFusionRoute>,
    k: int,
)
    requires
        0 <= k <= natives.len(),
        route_error(natives.take(k), pages, routes) is Some,
    ensures
        route_error(natives, pages, routes) == route_error(natives.take(k), pages, routes),
    decreases natives.len() - k,
{
    if k < natives.len() {
        assert(natives.take(k + 1).drop_last() =~= natives.take(k));
        lemma_route_error_extends(natives, pages, routes, k + 1);
    } else {
        assert(natives.take(k) =~= natives);
    }
}

proof fn lemma_native_pages_fit(natives: Seq<PageMarkdownResult>, j: int)
    requires
        native_error(natives) is None,
        0 <= j < natives.len(),
    ensures
        natives[j].page < u32::MAX,
    decreases natives.len(),
{
    if j < natives.len() - 1 {
        lemma_native_pages_fit(natives.drop_last(), j);
    }
}

/// Checks the native pages: every page can be numbered from 1 and none
/// repeats. Returns their 1-indexed numbers.
fn check_native_pages(natives: &Vec<PageMarkdownResult>) -> (r: Result<BTreeSet<u32>, OcrFusionError>)
    ensures
        r matches Ok(set) ==> native_error(natives@) is None && set@ == native_numbers(natives@),
        r matches Err(e) ==> native_error(natives@) == Some(e),
{
    proof {
        lemma_page_numbers_ordered();
    }
    let mut numbers: BTreeSet<u32> = BTreeSet::new();
    let mut i: usize = 0;
    while i < natives.len()
        invariant
            0 <= i <= natives@.len(),
            native_error(natives@.take(i as int)) is None,
            numbers@ == native_numbers(natives@.take(i as int)),
        decreases natives.len() - i,
    {
        assert(natives@.take(i + 1).drop_last() =~= natives@.take(i as int));
        assert(natives@.take(i + 1).last() == natives@[i as int]);
        let page = natives[i].page;
        if page == u32::MAX {
            proof {
                lemma_native_error_extends(natives@, i + 1);
            }
            return Err(OcrFusionError::PageOverflow);
        }
        let number = page + 1;
        if !numbers.insert(number) {
            proof {
                lemma_native_error_extends(natives@, i + 1);
            }
            return Err(OcrFusionError::DuplicateNativePage { page: number });
        }
        i = i + 1;
    }
    assert(natives@.take(natives@.len() as int) =~= natives@);
    Ok(numbers)
}

/// Checks the OCR pages against the native page numbers: every OCR page was
/// extracted natively and none repeats. Returns the index of each OCR page
/// by its number.
fn check_ocr_pages(numbers: &BTreeSet<u32>, pages: &Vec<RoutedOcrPage>) -> (r: Result<
    BTreeMap<u32, usize>,
    OcrFusionError,
>)
    ensures
        r matches Ok(map) ==> {
            &&& ocr_error(numbers@, pages@) is None
            &&& forall|n: u32| #[trigger]
                map@.contains_key(n) ==> map@[n] < pages@.len() && indexed_at(pages@, n, map@[n])
            &&& forall|n: u32| !#[trigger] map@.contains_key(n) ==> ocr_page_for(pages@, n) is None
        },
        r matches Err(e) ==> ocr_error(numbers@, pages@) == Some(e),
{
    proof {
        lemma_page_numbers_ordered();
    }
    let mut by_page: BTreeMap<u32, usize> = BTreeMap::new();
    let mut i: usize = 0;
    while i < pages.len()
        invariant
            0 <= i <= pages@.len(),
            ocr_error(numbers@, pages@.take(i as int)) is None,
            forall|n: u32| #[trigger]
                by_page@.contains_key(n) <==> ocr_numbers(pages@.take(i as int)).contains(n),
            forall|n: u32| #[trigger]
                by_page@.contains_key(n) ==> by_page@[n] < i && indexed_at(
                    pages@.take(i as int),
                    n,
                    by_page@[n],
                ),
            forall|n: u32| !#[trigger] by_page@.contains_key(n) ==> ocr_page_for(
                pages@.take(i as int),
                n,
            ) is None,
        decreases pages.len() - i,
    {
        let ghost prefix = pages@.take(i + 1);
        assert(prefix.drop_last() =~= pages@.take(i as int));
        assert(prefix.last() == pages@[i as int]);
        let number = pages[i].page_number;
        if !numbers.contains(&number) {
            proof {
                lemma_ocr_error_extends(numbers@, pages@, i + 1);
            }
            return Err(OcrFusionError::UnexpectedOcrPage { page: number });
        }
        if by_page.contains_key(&number) {
            proof {
                lemma_ocr_error_extends(numbers@, pages@, i + 1);
            }
            return Err(OcrFusionError::DuplicateOcrPage { page: number });
        }
        by_page.insert(number, i);
        proof {
            assert forall|n: u32| #[trigger] by_page@.contains_key(n) implies by_page@[n] < i + 1
                && indexed_at(prefix, n, by_page@[n]) by {
                if n != number {
                    assert(ocr_page_for(prefix, n) == ocr_page_for(pages@.take(i as int), n));
                }
            }
            assert forall|n: u32| !#[trigger] by_page@.contains_key(n) implies ocr_page_for(
                prefix,
                n,
            ) is None by {
                assert(ocr_page_for(prefix, n) == ocr_page_for(pages@.take(i as int), n));
            }
        }
        i = i + 1;
    }
    assert(pages@.take(pages@.len() as int) =~= pages@);
    Ok(by_page)
}

/// The Markdown of an OCR page: what the layout pipeline assembled from its
/// recognized lines, with the breaks between well-separated lines of one
/// text flow restored.
pub fn ocr_page_to_markdown(page: &RoutedOcrPage) -> (markdown: String)
    ensures
        markdown@ == route_markdown(*page, OcrFusionRoute::FullPage),
{
    preserve_ocr_line_breaks(page.assembled_markdown.as_str(), &page.layout)
}

/// Page `p` carries the number and the outcome that fusion owes native page
/// `native`.
pub open spec fn page_as_expected(
    p: FusedPageMarkdown,
    native: PageMarkdownResult,
    run: OcrRun,
    routes: Map<u32, OcrFusionRoute>,
    candidates: Map<u32, AdaptiveEvidence>,
) -> bool {
    &&& p.page_number == native.page + 1
    &&& p.provenance.page_number == p.page_number
    &&& outcome_of(p) == expected_outcome(native, run, routes, candidates)
}

/// `fused` holds one page per native page, in native order, each with the
/// outcome fusion owes it, and the batch timings of the run.
pub open spec fn fused_as_expected(
    fused: FusedPages,
    natives: Seq<PageMarkdownResult>,
    run: OcrRun,
    routes: Map<u32, OcrFusionRoute>,
    candidates: Map<u32, AdaptiveEvidence>,
) -> bool {
    &&& fused.pages@.len() == natives.len()
    &&& fused.render_time_ms == run.render_time_ms
    &&& fused.ocr_time_ms == run.ocr_time_ms
    &&& forall|j: int|
        0 <= j < natives.len() ==> page_as_expected(
            #[trigger] fused.pages@[j],
            natives[j],
            run,
            routes,
            candidates,
        )
}

fn clone_model(m: &OcrModelIdentity) -> (r: OcrModelIdentity)
    ensures
        r.name@ == m.name@,
        r.revision@ == m.revision@,
{
    OcrModelIdentity { name: clone_string(&m.name), revision: clone_string(&m.revision) }
}

fn unprocessed_warnings(needs_ocr: bool) -> (r: Vec<String>)
    ensures
        string_views(r@) == (if needs_ocr {
            seq!["page was recommended for OCR but was not processed"@]
        } else {
            Seq::<Seq<char>>::empty()
        }),
{
    let mut warnings: Vec<String> = Vec::new();
    assert(string_views(warnings@) =~= Seq::<Seq<char>>::empty());
    if needs_ocr {
        let w = owned_text("page was recommended for OCR but was not processed");
        push_warning(&mut warnings, w);
        assert(string_views(warnings@) =~= seq![
            "page was recommended for OCR but was not processed"@,
        ]);
    }
    warnings
}

/// Fuses a selective OCR run into per-page native Markdown, with an explicit
/// route for every OCR page and the trustworthy native candidates of pages
/// that needed OCR.
///
/// The native pages must be numbered without repeats, and every OCR page
/// must be one of them, once, with a route. Each native page then takes its
/// outcome in input order: OCR replaces a page whose native text was
/// rejected, a clean page gets only the OCR blocks that add content, a
/// trustworthy native candidate is weighed against the OCR, and a page that
/// needed OCR without a credible result recommends the hosted pipeline.
pub fn fuse_ocr_pages_adaptive_with_routes(
    native_pages: &Vec<PageMarkdownResult>,
    ocr_run: &OcrRun,
    native_candidates: &BTreeMap<u32, AdaptiveEvidence>,
    routes: &BTreeMap<u32, OcrFusionRoute>,
) -> (r: Result<FusedPages, OcrFusionError>)
    ensures
        r is Ok <==> fusion_error(native_pages@, ocr_run.pages@, routes@) is None,
        r matches Err(e) ==> fusion_error(native_pages@, ocr_run.pages@, routes@) == Some(e),
        r matches Ok(fused) ==> fused_as_expected(
            fused,
            native_pages@,
            *ocr_run,
            routes@,
            native_candidates@,
        ),
{
    proof {
        lemma_page_numbers_ordered();
    }
    let numbers = match check_native_pages(native_pages) {
        Ok(set) => set,
        Err(e) => return Err(e),
    };
    let by_page = match check_ocr_pages(&numbers, &ocr_run.pages) {
        Ok(map) => map,
        Err(e) => return Err(e),
    };
    let shares = equal_time_shares(ocr_run.render_time_ms, ocr_run.pages.len());
    let ghost natives = native_pages@;
    let ghost run_pages = ocr_run.pages@;
    let mut pages: Vec<FusedPageMarkdown> = Vec::new();
    let mut j: usize = 0;
    while j < native_pages.len()
        invariant
            natives == native_pages@,
            run_pages == ocr_run.pages@,
            0 <= j <= natives.len(),
            page_numbers_ordered(),
            native_error(natives) is None,
            ocr_error(native_numbers(natives), run_pages) is None,
            route_error(natives.take(j as int), run_pages, routes@) is None,
            forall|n: u32| #[trigger]
                by_page@.contains_key(n) ==> by_page@[n] < run_pages.len() && indexed_at(
                    run_pages,
                    n,
                    by_page@[n],
                ),
            forall|n: u32| !#[trigger] by_page@.contains_key(n) ==> ocr_page_for(run_pages, n) is None,
            shares@.len() == run_pages.len(),
            forall|i: int|
                0 <= i < run_pages.len() ==> #[trigger] shares@[i] == time_share(
                    ocr_run.render_time_ms,
                    run_pages.len(),
                    i,
                ),
            pages@.len() == j,
            forall|k: int|
                0 <= k < j ==> page_as_expected(
                    #[trigger] pages@[k],
                    natives[k],
                    *ocr_run,
                    routes@,
                    native_candidates@,
                ),
        decreases natives.len() - j,
    {
        let native = &native_pages[j];
        proof {
            lemma_native_pages_fit(natives, j as int);
            assert(natives.take(j + 1).drop_last() =~= natives.take(j as int));
            assert(natives.take(j + 1).last() == natives[j as int]);
        }
        let number = native.page + 1;
        let started = start_timer();
        let (markdown, source, ocr_model, processed, spans, render_ms, ocr_ms, warnings, hosted) =
            match by_page.get(
            &number,
        ) {
            Some(index) => {
                let i = *index;
                let page = &ocr_run.pages[i];
                let route = match routes.get(&number) {
                    Some(route) => *route,
                    None => {
                        proof {
                            lemma_route_error_extends(natives, run_pages, routes@, j + 1);
                        }
                        return Err(OcrFusionError::MissingOcrRoute { page: number });
                    },
                };
                let evidence = native_candidates.get(&number);
                let settled = fuse_routed_page(native, page, route, evidence);
                (
                    settled.markdown,
                    settled.source,
                    Some(clone_model(&page.model)),
                    true,
                    ocr_text_spans(&page.layout),
                    shares[i],
                    page.processing_time_ms,
                    settled.warnings,
                    settled.hosted_recommended,
                )
            },
            None => (
                clone_string(&native.markdown),
                PageContentSource::Native,
                None,
                false,
                Vec::new(),
                0,
                0,
                unprocessed_warnings(native.needs_ocr),
                native.needs_ocr,
            ),
        };
        let assembly_ms = elapsed_ms(&started);
        let fused = FusedPageMarkdown {
            page_number: number,
            markdown,
            spans,
            provenance: PageProvenance {
                page_number: number,
                source,
                ocr_model,
                ocr_processed: processed,
                timings: VisionTimings { render_ms, ocr_ms, assembly_ms },
                warnings,
                hosted_recommended: hosted,
            },
        };
        proof {
            let expected = expected_outcome(*native, *ocr_run, routes@, native_candidates@);
            let actual = outcome_of(fused);
            assert(actual.markdown =~= expected.markdown);
            assert(actual.warnings =~= expected.warnings);
            assert(actual.spans =~= expected.spans);
            assert(actual == expected);
        }
        pages.push(fused);
        j = j + 1;
    }
    assert(natives.take(natives.len() as int) =~= natives);
    Ok(FusedPages {
        pages,
        render_time_ms: ocr_run.render_time_ms,
        ocr_time_ms: ocr_run.ocr_time_ms,
    })
}

/// Every OCR page of `pages` routed to full-page fusion.
pub open spec fn full_page_route_map(pages: Seq<RoutedOcrPage>) -> Map<u32, OcrFusionRoute> {
    Map::new(|n: u32| ocr_numbers(pages).contains(n), |n: u32| OcrFusionRoute::FullPage)
}

/// Routes every page of the run to full-page fusion.
pub fn full_page_routes(ocr_run: &OcrRun) -> (routes: BTreeMap<u32, OcrFusionRoute>)
    ensures
        routes@ == full_page_route_map(ocr_run.pages@),
{
    proof {
        lemma_page_numbers_ordered();
    }
    let mut routes: BTreeMap<u32, OcrFusionRoute> = BTreeMap::new();
    let mut i: usize = 0;
    assert(routes@ =~= full_page_route_map(ocr_run.pages@.take(0)));
    while i < ocr_run.pages.len()
        invariant
            0 <= i <= ocr_run.pages@.len(),
            page_numbers_ordered(),
            routes@ == full_page_route_map(ocr_run.pages@.take(i as int)),
        decreases ocr_run.pages.len() - i,
    {
        let number = ocr_run.pages[i].page_number;
        assert(ocr_run.pages@.take(i + 1).drop_last() =~= ocr_run.pages@.take(i as int));
        routes.insert(number, OcrFusionRoute::FullPage);
        assert(routes@ =~= full_page_route_map(ocr_run.pages@.take(i + 1)));
        i = i + 1;
    }
    assert(ocr_run.pages@.take(ocr_run.pages@.len() as int) =~= ocr_run.pages@);
    routes
}

proof fn lemma_ocr_page_numbered(pages: Seq<RoutedOcrPage>, n: u32)
    ensures
        ocr_page_for(pages, n) is Some ==> ocr_numbers(pages).contains(n),
    decreases pages.len(),
{
    if pages.len() > 0 {
        lemma_ocr_page_numbered(pages.drop_last(), n);
    }
}

proof fn lemma_routed_pages_have_routes(
    natives: Seq<PageMarkdownResult>,
    pages: Seq<RoutedOcrPage>,
)
    ensures
        route_error(natives, pages, full_page_route_map(pages)) is None,
    decreases natives.len(),
{
    if natives.len() > 0 {
        lemma_routed_pages_have_routes(natives.drop_last(), pages);
        lemma_ocr_page_numbered(pages, (natives.last().page + 1) as u32);
    }
}

/// Fuses a selective OCR run into per-page native Markdown, every OCR page
/// routed to full-page fusion and no native candidates.
///
/// OCR replaces pages whose native extraction was already rejected. On
/// clean native pages, duplicate OCR blocks are dropped and only additional
/// blocks are appended. Pages that needed OCR but have no credible OCR
/// result recommend the hosted pipeline.
pub fn fuse_ocr_pages(native_pages: &Vec<PageMarkdownResult>, ocr_run: &OcrRun) -> (r: Result<
    FusedPages,
    OcrFusionError,
>)
    ensures
        r is Ok <==> native_error(native_pages@) is None && ocr_error(
            native_numbers(native_pages@),
            ocr_run.pages@,
        ) is None,
        r matches Err(e) ==> fusion_error(
            native_pages@,
            ocr_run.pages@,
            full_page_route_map(ocr_run.pages@),
        ) == Some(e),
        r matches Ok(fused) ==> fused_as_expected(
            fused,
            native_pages@,
            *ocr_run,
            full_page_route_map(ocr_run.pages@),
            Map::empty(),
        ),
{
    let routes = full_page_routes(ocr_run);
    let candidates: BTreeMap<u32, AdaptiveEvidence> = BTreeMap::new();
    proof {
        lemma_routed_pages_have_routes(native_pages@, ocr_run.pages@);
    }
    assert(candidates@ =~= Map::<u32, AdaptiveEvidence>::empty());
    fuse_ocr_pages_adaptive_with_routes(native_pages, ocr_run, &candidates, &routes)
}

/// Across a fusion, page by page: only a page that needed OCR recommends the
/// hosted pipeline; OCR content alone replaces only a page that needed OCR
/// or had no native text; and a clean page with native text keeps that
/// text, without its trailing line feeds, at the start of its Markdown.
pub proof fn lemma_fusion_respects_native_pages(
    fused: FusedPages,
    natives: Seq<PageMarkdownResult>,
    run: OcrRun,
    routes: Map<u32, OcrFusionRoute>,
    candidates: Map<u32, AdaptiveEvidence>,
)
    requires
        fused_as_expected(fused, natives, run, routes, candidates),
    ensures
        forall|j: int|
            0 <= j < natives.len() ==> {
                let page = #[trigger] fused.pages@[j];
                let native = natives[j];
                &&& page.provenance.hosted_recommended ==> native.needs_ocr
                &&& page.provenance.source == PageContentSource::Ocr ==> native.needs_ocr || trim(
                    native.markdown@,
                ).len() == 0
                &&& !native.needs_ocr && trim(native.markdown@).len() > 0 ==> trim_end_newlines(
                    native.markdown@,
                ).is_prefix_of(page.markdown@)
            },
{
    assert forall|j: int| 0 <= j < natives.len() implies {
        let page = #[trigger] fused.pages@[j];
        let native = natives[j];
        &&& page.provenance.hosted_recommended ==> native.needs_ocr
        &&& page.provenance.source == PageContentSource::Ocr ==> native.needs_ocr || trim(
            native.markdown@,
        ).len() == 0
        &&& !native.needs_ocr && trim(native.markdown@).len() > 0 ==> trim_end_newlines(
            native.markdown@,
        ).is_prefix_of(page.markdown@)
    } by {
        let page = fused.pages@[j];
        let native = natives[j];
        assert(page_as_expected(page, native, run, routes, candidates));
        crate::text::lemma_trim_end_newlines_is_prefix(native.markdown@);
        let number = (native.page + 1) as u32;
        match ocr_page_for(run.pages@, number) {
            None => {},
            Some(i) => {
                let ocr = route_markdown(run.pages@[i], routes[number]);
                crate::merge::lemma_merge_keeps_native(native.markdown@, ocr);
            },
        }
    }
}

/// A page that needed OCR but has no credible OCR result recommends the
/// hosted pipeline: OCR did not process it, its OCR was weak, or its final
/// Markdown is blank.
pub proof fn lemma_fusion_recommends_hosted(
    fused: FusedPages,
    natives: Seq<PageMarkdownResult>,
    run: OcrRun,
    routes: Map<u32, OcrFusionRoute>,
    candidates: Map<u32, AdaptiveEvidence>,
)
    requires
        fused_as_expected(fused, natives, run, routes, candidates),
    ensures
        forall|j: int|
            0 <= j < natives.len() ==> {
                let page = #[trigger] fused.pages@[j];
                let native = natives[j];
                let processed = ocr_page_for(run.pages@, (native.page + 1) as u32);
                native.needs_ocr && (processed is None || run.pages@[processed->0].weak_confidence
                    || trim(page.markdown@).len() == 0) ==> page.provenance.hosted_recommended
            },
{
    assert forall|j: int| 0 <= j < natives.len() implies {
        let page = #[trigger] fused.pages@[j];
        let native = natives[j];
        let processed = ocr_page_for(run.pages@, (native.page + 1) as u32);
        native.needs_ocr && (processed is None || run.pages@[processed->0].weak_confidence || trim(
            page.markdown@,
        ).len() == 0) ==> page.provenance.hosted_recommended
    } by {
        assert(page_as_expected(fused.pages@[j], natives[j], run, routes, candidates));
    }
}

/// The Markdown of an OCR page does not depend on the order in which the
/// engine reported its lines: the same lines in another order, with the same
/// assembled Markdown and image size, give the same Markdown.
pub proof fn lemma_ocr_markdown_ignores_line_order(page: RoutedOcrPage, reordered: RoutedOcrPage)
    requires
        reordered.assembled_markdown@ == page.assembled_markdown@,
        reordered.layout.image_width == page.layout.image_width,
        reordered.layout.image_height == page.layout.image_height,
        reordered.layout.lines@.to_multiset() == page.layout.lines@.to_multiset(),
    ensures
        route_markdown(reordered, OcrFusionRoute::FullPage) == route_markdown(
            page,
            OcrFusionRoute::FullPage,
        ),
{
    crate::line_order::lemma_line_breaks_ignore_line_order(
        page.assembled_markdown@,
        page.layout.lines@,
        reordered.layout.lines@,
        crate::layout::pixel_units(page.layout.image_width),
        crate::layout::pixel_units(page.layout.image_height),
    );
}

/// A page that needed OCR and has no native candidate takes the OCR
/// Markdown of its route as its content, with source OCR, whatever its
/// native text is.
pub proof fn lemma_needed_ocr_takes_ocr_content(
    native: PageMarkdownResult,
    page: RoutedOcrPage,
    route: OcrFusionRoute,
    render_ms: u64,
)
    requires
        native.needs_ocr,
    ensures
        ocr_outcome(native, page, route, None, render_ms).markdown == route_markdown(page, route),
        ocr_outcome(native, page, route, None, render_ms).source == PageContentSource::Ocr,
{
}

/// Across a fusion: a page that needed OCR, was processed by OCR and has no
/// native candidate carries its OCR Markdown, with source OCR.
pub proof fn lemma_fused_needed_pages_take_ocr(
    fused: FusedPages,
    natives: Seq<PageMarkdownResult>,
    run: OcrRun,
    routes: Map<u32, OcrFusionRoute>,
    candidates: Map<u32, AdaptiveEvidence>,
    j: int,
)
    requires
        fused_as_expected(fused, natives, run, routes, candidates),
        0 <= j < natives.len(),
        natives[j].needs_ocr,
        ocr_page_for(run.pages@, (natives[j].page + 1) as u32) is Some,
        !candidates.contains_key((natives[j].page + 1) as u32),
    ensures
        ({
            let i = ocr_page_for(run.pages@, (natives[j].page + 1) as u32)->0;
            &&& fused.pages@[j].markdown@ == route_markdown(
                run.pages@[i],
                routes[(natives[j].page + 1) as u32],
            )
            &&& fused.pages@[j].provenance.source == PageContentSource::Ocr
        }),
{
    assert(page_as_expected(fused.pages@[j], natives[j], run, routes, candidates));
}

/// Without OCR that scores materially lower, the native candidate is kept
/// over usable OCR only together with a hosted recommendation: every choice
/// that recommends no hosted parsing is the fusion of the two texts. Usable,
/// confident, materially novel OCR is always fused.
pub proof fn lemma_adaptive_keeps_native_only_for_cause(
    native: Seq<char>,
    origin: NativeCandidateOrigin,
    ocr: Seq<char>,
    ocr_text_clean: bool,
    weak_ocr: bool,
    ocr_scores_lower: bool,
)
    ensures
        ({
            let c = adaptive_choice(native, origin, ocr, ocr_text_clean, weak_ocr, ocr_scores_lower);
            !ocr_scores_lower && !c.recommend_hosted ==> (c.markdown, c.source) == merged_markdown(
                native,
                ocr,
            )
        }),
        ({
            let c = adaptive_choice(native, origin, ocr, ocr_text_clean, weak_ocr, ocr_scores_lower);
            let ocr_chars = alphanumeric_count(ocr) as int;
            let shared = shared_content_chars(native, ocr) as int;
            let novel = if ocr_chars >= shared {
                ocr_chars - shared
            } else {
                0
            };
            (ocr_text_clean && trim(ocr).len() > 0 && ocr_chars > 0 && !weak_ocr && !ocr_scores_lower
                && novel >= 2 && 8 * novel >= ocr_chars) ==> (c.markdown, c.source)
                == merged_markdown(native, ocr) && !c.recommend_hosted
        }),
{
}

} // verus!
