//! The value types of the language bindings and the conversions between
//! them and the extraction results: type names, item kinds, OCR modes and
//! the frames of turned pages.
use vstd::prelude::*;
use crate::fusion::{owned_text, PageMarkdownResult, VisionTimings};
use crate::model::PageContentSource;
use crate::text::{chars_equal, chars_of, trim, trim_chars};

verus! {

/// PDF document type classification.
#[derive(Clone, Copy, Debug, PartialEq, Eq, Structural)]
pub enum PdfType {
    TextBased,
    Scanned,
    ImageBased,
    Mixed,
}

/// The name of a document type in the Python bindings.
pub open spec fn pdf_type_name(t: PdfType) -> Seq<char> {
    match t {
        PdfType::TextBased => "text_based"@,
        PdfType::Scanned => "scanned"@,
        PdfType::ImageBased => "image_based"@,
        PdfType::Mixed => "mixed"@,
    }
}

/// The name of a document type in the Python bindings.
pub fn pdf_type_str(t: PdfType) -> (name: String)
    ensures
        name@ == pdf_type_name(t),
{
    match t {
        PdfType::TextBased => owned_text("text_based"),
        PdfType::Scanned => owned_text("scanned"),
        PdfType::ImageBased => owned_text("image_based"),
        PdfType::Mixed => owned_text("mixed"),
    }
}

/// The name of a content source in the Python bindings.
pub open spec fn page_content_source_name(source: PageContentSource) -> Seq<char> {
    match source {
        PageContentSource::Native => "native"@,
        PageContentSource::Ocr => "ocr"@,
        PageContentSource::Fused => "fused"@,
    }
}

/// The name of a content source in the Python bindings.
pub fn page_content_source_str(source: PageContentSource) -> (name: String)
    ensures
        name@ == page_content_source_name(source),
{
    match source {
        PageContentSource::Native => owned_text("native"),
        PageContentSource::Ocr => owned_text("ocr"),
        PageContentSource::Fused => owned_text("fused"),
    }
}

/// Type of a positioned text item, as the JavaScript bindings report it.
#[derive(Clone, Copy, Debug, PartialEq, Eq, Structural)]
pub enum ItemType {
    Text,
    Image,
    Link,
    FormField,
}

/// The kind of a positioned item as extraction reports it: a link carries
/// its URL.
pub enum TextItemKind {
    Text,
    Image,
    Link(String),
    FormField,
}

/// The binding type of an item kind and the URL of a link.
pub fn convert_item_type(kind: &TextItemKind) -> (r: (ItemType, Option<String>))
    ensures
        match *kind {
            TextItemKind::Text => r.0 == ItemType::Text && r.1 is None,
            TextItemKind::Image => r.0 == ItemType::Image && r.1 is None,
            TextItemKind::Link(url) => r.0 == ItemType::Link && (r.1 matches Some(u) && u@ == url@),
            TextItemKind::FormField => r.0 == ItemType::FormField && r.1 is None,
        },
{
    match kind {
        TextItemKind::Text => (ItemType::Text, None),
        TextItemKind::Image => (ItemType::Image, None),
        TextItemKind::Link(url) => (ItemType::Link, Some(owned_text(url.as_str()))),
        TextItemKind::FormField => (ItemType::FormField, None),
    }
}

/// The name of an item kind in the Python bindings: a link is named by
/// `link:` and its URL.
pub open spec fn item_type_name(kind: TextItemKind) -> Seq<char> {
    match kind {
        TextItemKind::Text => "text"@,
        TextItemKind::Image => "image"@,
        TextItemKind::Link(url) => "link:"@ + url@,
        TextItemKind::FormField => "form_field"@,
    }
}

/// The name of an item kind in the Python bindings.
pub fn item_type_str(kind: &TextItemKind) -> (name: String)
    ensures
        name@ == item_type_name(*kind),
{
    match kind {
        TextItemKind::Text => owned_text("text"),
        TextItemKind::Image => owned_text("image"),
        TextItemKind::Link(url) => {
            let mut chars = chars_of("link:");
            let tail = chars_of(url.as_str());
            crate::text::push_all(&mut chars, &tail);
            crate::text::string_from_chars(&chars)
        },
        TextItemKind::FormField => owned_text("form_field"),
    }
}

/// Selects when OCR runs.
#[derive(Clone, Copy, Debug, PartialEq, Eq, Structural)]
pub enum OcrMode {
    /// Never run OCR; return the native extraction in the OCR result shape.
    Off,
    /// Run OCR only on pages selected by the native quality signals.
    Auto,
    /// Run OCR on every selected page.
    Force,
}

/// `c` with an ASCII capital letter made small.
pub open spec fn ascii_lowercase_char(c: char) -> char {
    if 'A' <= c <= 'Z' {
        ((c as u32) + 32) as char
    } else {
        c
    }
}

/// `s` with its ASCII capital letters made small.
pub open spec fn ascii_lowercase(s: Seq<char>) -> Seq<char> {
    s.map_values(|c: char| ascii_lowercase_char(c))
}

/// The OCR mode a caller names: `off`, `auto` or `force`, in any ASCII case,
/// with white space around it ignored; `None` for any other text.
pub open spec fn ocr_mode_named(text: Seq<char>) -> Option<OcrMode> {
    let name = ascii_lowercase(trim(text));
    if name == "off"@ {
        Some(OcrMode::Off)
    } else if name == "auto"@ {
        Some(OcrMode::Auto)
    } else if name == "force"@ {
        Some(OcrMode::Force)
    } else {
        None
    }
}

fn ascii_lowercase_of(s: &[char]) -> (out: Vec<char>)
    ensures
        out@ == ascii_lowercase(s@),
{
    let mut out: Vec<char> = Vec::new();
    let mut i: usize = 0;
    while i < s.len()
        invariant
            0 <= i <= s@.len(),
            out@ == ascii_lowercase(s@.take(i as int)),
        decreases s.len() - i,
    {
        let c = s[i];
        let lower = if 'A' <= c && c <= 'Z' {
            ((c as u8) + 32) as char
        } else {
            c
        };
        assert(ascii_lowercase(s@.take(i + 1)) =~= ascii_lowercase(s@.take(i as int)).push(
            ascii_lowercase_char(c),
        ));
        out.push(lower);
        i = i + 1;
    }
    assert(s@.take(s@.len() as int) =~= s@);
    out
}

/// Reads the OCR mode a caller names: `off`, `auto` or `force`, in any
/// ASCII case and with surrounding white space.
pub fn parse_ocr_mode(text: &str) -> (mode: Option<OcrMode>)
    ensures
        mode == ocr_mode_named(text@),
{
    let chars = chars_of(text);
    let trimmed = trim_chars(&chars);
    let name = ascii_lowercase_of(&trimmed);
    let off = chars_of("off");
    let auto = chars_of("auto");
    let force = chars_of("force");
    if chars_equal(&name, &off) {
        Some(OcrMode::Off)
    } else if chars_equal(&name, &auto) {
        Some(OcrMode::Auto)
    } else if chars_equal(&name, &force) {
        Some(OcrMode::Force)
    } else {
        None
    }
}

/// Per-page OCR processing timings as the JavaScript bindings report them,
/// in milliseconds.
pub struct OcrTimings {
    pub render_ms: u32,
    pub ocr_ms: u32,
    pub assembly_ms: u32,
}

/// `value` milliseconds as a `u32`, saturating at `u32::MAX`.
pub open spec fn saturated_ms(value: u64) -> u32 {
    if value <= u32::MAX {
        value as u32
    } else {
        u32::MAX
    }
}

/// The timings of a page in the bindings' width, each saturating at
/// `u32::MAX`.
pub fn binding_timings(timings: &VisionTimings) -> (out: OcrTimings)
    ensures
        out.render_ms == saturated_ms(timings.render_ms),
        out.ocr_ms == saturated_ms(timings.ocr_ms),
        out.assembly_ms == saturated_ms(timings.assembly_ms),
{
    OcrTimings {
        render_ms: crate::timing::timing_ms(timings.render_ms),
        ocr_ms: crate::timing::timing_ms(timings.ocr_ms),
        assembly_ms: crate::timing::timing_ms(timings.assembly_ms),
    }
}

/// OCR reasons for a single 1-indexed page.
pub struct PageOcrReasons {
    pub page: u32,
    pub reasons: Vec<String>,
}

/// Extracted text for a single region.
pub struct RegionText {
    pub text: String,
    /// The text should not be trusted (empty, GID fonts, garbage, encoding
    /// issues).
    pub needs_ocr: bool,
    /// Machine-readable OCR reason when the cause is known.
    pub ocr_reason: Option<String>,
}

/// Extracted text for one page's regions.
pub struct PageRegionTexts {
    pub page: u32,
    pub regions: Vec<RegionText>,
}

/// One structure-tree element reference from a tagged PDF.
pub struct StructureElementJs {
    /// 1-indexed page number (matches `TextItem.page`).
    pub page: u32,
    /// Marked Content ID from the page's content stream.
    pub mcid: i64,
    /// Standard structure type name ("H1".."H6", "P", "Table", "TD", …).
    pub role: String,
}

/// Markdown of one table plus the recovery path that produced it, if any.
pub struct TableExtractionResultJs {
    pub markdown: String,
    pub fallback_reason: Option<String>,
}

/// Combined per-page markdown extraction and layout classification result.
pub struct PagesExtractionResult {
    /// Per-page markdown results.
    pub pages: Vec<PageMarkdownResult>,
    /// 1-indexed pages where tables were detected.
    pub pages_with_tables: Vec<u32>,
    /// 1-indexed pages where multi-column layout was detected.
    pub pages_with_columns: Vec<u32>,
    /// 1-indexed pages that need OCR (scanned/image-based).
    pub pages_needing_ocr: Vec<u32>,
    /// Machine-readable OCR reasons by 1-indexed page.
    pub ocr_reasons_by_page: Vec<PageOcrReasons>,
    /// True if any page has tables or columns.
    pub is_complex: bool,
}

/// The frame of a page as extraction reports it.
#[derive(Clone, Copy, Debug, PartialEq, Eq, Structural)]
pub enum FrameRotation {
    /// The page's text reads left-to-right in plain page coordinates.
    Upright,
    /// The runs read bottom-to-top and the frame was turned.
    Ccw,
    /// The runs read top-to-bottom and the frame was turned.
    Cw,
}

/// The coordinate frame of a page whose text was predominantly rotated.
pub struct PageRotation {
    /// 1-indexed page number, matching `TextItem.page`.
    pub page: u32,
    /// `"ccw"` when the page's runs read bottom-to-top and the frame was
    /// turned so they read left-to-right, `"cw"` for runs reading
    /// top-to-bottom.
    pub rotation: String,
}

/// The name of a turned frame.
pub open spec fn rotation_name(rotation: FrameRotation) -> Seq<char> {
    match rotation {
        FrameRotation::Ccw => "ccw"@,
        FrameRotation::Cw => "cw"@,
        FrameRotation::Upright => Seq::empty(),
    }
}

/// The entries of `rotations` whose page was turned, in input order.
pub open spec fn turned_pages(rotations: Seq<(u32, FrameRotation)>) -> Seq<(u32, FrameRotation)>
    decreases rotations.len(),
{
    if rotations.len() == 0 {
        Seq::empty()
    } else {
        let rest = turned_pages(rotations.drop_last());
        if rotations.last().1 == FrameRotation::Upright {
            rest
        } else {
            rest.push(rotations.last())
        }
    }
}

/// `s` with `x` placed after every entry whose page is not greater.
pub open spec fn insert_by_page(s: Seq<(u32, FrameRotation)>, x: (u32, FrameRotation)) -> Seq<
    (u32, FrameRotation),
>
    decreases s.len(),
{
    if s.len() == 0 {
        seq![x]
    } else if x.0 < s.last().0 {
        insert_by_page(s.drop_last(), x).push(s.last())
    } else {
        s.push(x)
    }
}

/// `s` stably sorted by page.
pub open spec fn sort_by_page(s: Seq<(u32, FrameRotation)>) -> Seq<(u32, FrameRotation)>
    decreases s.len(),
{
    if s.len() == 0 {
        Seq::empty()
    } else {
        insert_by_page(sort_by_page(s.drop_last()), s.last())
    }
}

proof fn lemma_insert_by_page_at(s: Seq<(u32, FrameRotation)>, x: (u32, FrameRotation), k: int)
    requires
        0 <= k <= s.len(),
        forall|j: int| k <= j < s.len() ==> x.0 < (#[trigger] s[j]).0,
        k > 0 ==> s[k - 1].0 <= x.0,
    ensures
        insert_by_page(s, x) == s.take(k).push(x) + s.skip(k),
    decreases s.len(),
{
    if s.len() == 0 {
        assert(s.take(k).push(x) + s.skip(k) =~= seq![x]);
    } else if k == s.len() {
        assert(s.take(k).push(x) + s.skip(k) =~= s.push(x));
    } else {
        lemma_insert_by_page_at(s.drop_last(), x, k);
        assert(s.drop_last().take(k).push(x) + s.drop_last().skip(k) + seq![s.last()] =~= s.take(
            k,
        ).push(x) + s.skip(k));
    }
}

/// Placing an entry keeps a page-sorted sequence sorted and adds exactly
/// that entry.
proof fn lemma_insert_by_page(s: Seq<(u32, FrameRotation)>, x: (u32, FrameRotation))
    requires
        forall|i: int, j: int| 0 <= i < j < s.len() ==> (#[trigger] s[i]).0 <= (#[trigger] s[j]).0,
    ensures
        forall|i: int, j: int|
            0 <= i < j < insert_by_page(s, x).len() ==> (#[trigger] insert_by_page(s, x)[i]).0
                <= (#[trigger] insert_by_page(s, x)[j]).0,
        insert_by_page(s, x).to_multiset() == s.to_multiset().insert(x),
    decreases s.len(),
{
    broadcast use vstd::seq_lib::group_to_multiset_ensures;

    if s.len() == 0 {
        assert(seq![x] =~= Seq::<(u32, FrameRotation)>::empty().push(x));
    } else if x.0 < s.last().0 {
        let rest = s.drop_last();
        lemma_insert_by_page(rest, x);
        let placed = insert_by_page(rest, x);
        assert(rest.push(s.last()) =~= s);
        assert(placed.to_multiset().insert(s.last()) =~= s.to_multiset().insert(x));
        assert forall|i: int, j: int|
            0 <= i < j < placed.push(s.last()).len() implies (
            #[trigger] placed.push(s.last())[i]).0 <= (#[trigger] placed.push(s.last())[j]).0 by {
            if j == placed.len() {
                let e = placed[i];
                assert(placed.to_multiset().count(e) > 0);
                assert(e == x || rest.to_multiset().count(e) > 0);
                if e != x {
                    assert(rest.contains(e));
                    let m = choose|m: int| 0 <= m < rest.len() && rest[m] == e;
                    assert(s[m] == e);
                    assert(s[s.len() - 1] == s.last());
                }
            }
        }
    }
}

/// A stable sort by page orders the entries by page and keeps exactly the
/// entries it was given.
pub proof fn lemma_sort_by_page(s: Seq<(u32, FrameRotation)>)
    ensures
        forall|i: int, j: int|
            0 <= i < j < sort_by_page(s).len() ==> (#[trigger] sort_by_page(s)[i]).0
                <= (#[trigger] sort_by_page(s)[j]).0,
        sort_by_page(s).to_multiset() == s.to_multiset(),
    decreases s.len(),
{
    broadcast use vstd::seq_lib::group_to_multiset_ensures;

    if s.len() > 0 {
        lemma_sort_by_page(s.drop_last());
        lemma_insert_by_page(sort_by_page(s.drop_last()), s.last());
        assert(s.drop_last().push(s.last()) =~= s);
    }
}

/// Every entry kept for turned pages is turned.
pub proof fn lemma_turned_pages(rotations: Seq<(u32, FrameRotation)>)
    ensures
        forall|p: (u32, FrameRotation)| #[trigger]
            turned_pages(rotations).contains(p) <==> rotations.contains(p) && p.1
                != FrameRotation::Upright,
    decreases rotations.len(),
{
    if rotations.len() > 0 {
        let rest = rotations.drop_last();
        lemma_turned_pages(rest);
        assert forall|p: (u32, FrameRotation)| #[trigger]
            turned_pages(rotations).contains(p) <==> rotations.contains(p) && p.1
                != FrameRotation::Upright by {
            let kept = turned_pages(rest);
            if rotations.contains(p) && p != rotations.last() {
                let k = choose|k: int| 0 <= k < rotations.len() && rotations[k] == p;
                assert(rest[k] == p);
            }
            if rest.contains(p) {
                let k = choose|k: int| 0 <= k < rest.len() && rest[k] == p;
                assert(rotations[k] == p);
            }
            if rotations.last().1 != FrameRotation::Upright {
                assert(kept.push(rotations.last())[kept.len() as int] == rotations.last());
                if kept.contains(p) {
                    let k = choose|k: int| 0 <= k < kept.len() && kept[k] == p;
                    assert(kept.push(rotations.last())[k] == p);
                }
                if kept.push(rotations.last()).contains(p) && p != rotations.last() {
                    let k = choose|k: int|
                        0 <= k < kept.push(rotations.last()).len() && kept.push(
                            rotations.last(),
                        )[k] == p;
                    assert(kept[k] == p);
                }
            }
            if p == rotations.last() {
                assert(rotations[rotations.len() - 1] == p);
            }
        }
    }
}

fn sorted_turned_pages(rotations: &Vec<(u32, FrameRotation)>) -> (out: Vec<(u32, FrameRotation)>)
    ensures
        out@ == sort_by_page(turned_pages(rotations@)),
{
    let mut turned: Vec<(u32, FrameRotation)> = Vec::new();
    let mut i: usize = 0;
    while i < rotations.len()
        invariant
            0 <= i <= rotations@.len(),
            turned@ == turned_pages(rotations@.take(i as int)),
        decreases rotations.len() - i,
    {
        let entry = rotations[i];
        assert(rotations@.take(i + 1).drop_last() =~= rotations@.take(i as int));
        assert(rotations@.take(i + 1).last() == entry);
        match entry.1 {
            FrameRotation::Upright => {},
            _ => turned.push(entry),
        }
        i = i + 1;
    }
    assert(rotations@.take(rotations@.len() as int) =~= rotations@);
    let mut out: Vec<(u32, FrameRotation)> = Vec::new();
    let mut i: usize = 0;
    while i < turned.len()
        invariant
            0 <= i <= turned@.len(),
            out@ == sort_by_page(turned@.take(i as int)),
        decreases turned.len() - i,
    {
        let x = turned[i];
        let mut k: usize = out.len();
        while k > 0 && x.0 < out[k - 1].0
            invariant
                0 <= k <= out@.len(),
                forall|j: int| k <= j < out@.len() ==> x.0 < (#[trigger] out@[j]).0,
            decreases k,
        {
            k = k - 1;
        }
        proof {
            lemma_insert_by_page_at(out@, x, k as int);
            assert(turned@.take(i + 1).drop_last() =~= turned@.take(i as int));
            assert(out@.insert(k as int, x) =~= out@.take(k as int).push(x) + out@.skip(k as int));
        }
        out.insert(k, x);
        i = i + 1;
    }
    assert(turned@.take(turned@.len() as int) =~= turned@);
    out
}

/// The frames of the turned pages, by page: upright pages are left out,
/// and the others are stably sorted by page number.
pub fn page_rotations(rotations: &Vec<(u32, FrameRotation)>) -> (out: Vec<PageRotation>)
    ensures
        out@.len() == sort_by_page(turned_pages(rotations@)).len(),
        forall|k: int|
            0 <= k < out@.len() ==> {
                let entry = sort_by_page(turned_pages(rotations@))[k];
                &&& (#[trigger] out@[k]).page == entry.0
                &&& out@[k].rotation@ == rotation_name(entry.1)
            },
{
    let sorted = sorted_turned_pages(rotations);
    let mut out: Vec<PageRotation> = Vec::new();
    let mut i: usize = 0;
    while i < sorted.len()
        invariant
            0 <= i <= sorted@.len(),
            out@.len() == i,
            forall|k: int|
                0 <= k < i ==> {
                    &&& (#[trigger] out@[k]).page == sorted@[k].0
                    &&& out@[k].rotation@ == rotation_name(sorted@[k].1)
                },
        decreases sorted.len() - i,
    {
        let (page, rotation) = sorted[i];
        let name = match rotation {
            FrameRotation::Ccw => owned_text("ccw"),
            FrameRotation::Cw => owned_text("cw"),
            FrameRotation::Upright => String::new(),
        };
        out.push(PageRotation { page, rotation: name });
        i = i + 1;
    }
    out
}

/// Moves the bytes out of `bytes`, leaving it empty.
fn take_bytes(bytes: &mut Vec<u8>) -> (taken: Vec<u8>)
    ensures
        taken@ == old(bytes)@,
        final(bytes)@.len() == 0,
{
    let mut taken: Vec<u8> = Vec::new();
    std::mem::swap(&mut taken, bytes);
    taken
}

/// A document parse that runs off the caller's thread: the copied input
/// bytes and the optional page selection.
pub struct ProcessPdfTask {
    bytes: Vec<u8>,
    pages: Option<Vec<u32>>,
}

impl ProcessPdfTask {
    pub closed spec fn bytes_view(&self) -> Seq<u8> {
        self.bytes@
    }

    pub closed spec fn pages_view(&self) -> Option<Seq<u32>> {
        match self.pages {
            Some(p) => Some(p@),
            None => None,
        }
    }

    /// A task over copied bytes and an optional page selection.
    pub fn new(bytes: Vec<u8>, pages: Option<Vec<u32>>) -> (task: Self)
        ensures
            task.bytes_view() == bytes@,
            task.pages_view() == (match pages {
                Some(p) => Some(p@),
                None => None,
            }),
    {
        ProcessPdfTask { bytes, pages }
    }

    /// Moves the input out of the task, as a run does before it parses: the
    /// task keeps no bytes and no selection.
    pub fn take_input(&mut self) -> (input: (Vec<u8>, Option<Vec<u32>>))
        ensures
            input.0@ == old(self).bytes_view(),
            (match input.1 {
                Some(p) => Some(p@),
                None => None,
            }) == old(self).pages_view(),
            final(self).bytes_view().len() == 0,
            final(self).pages_view() is None,
    {
        let bytes = take_bytes(&mut self.bytes);
        let pages = self.pages.take();
        (bytes, pages)
    }
}

/// A document classification that runs off the caller's thread.
pub struct ClassifyPdfTask {
    bytes: Vec<u8>,
}

impl ClassifyPdfTask {
    pub closed spec fn bytes_view(&self) -> Seq<u8> {
        self.bytes@
    }

    /// A task over copied bytes.
    pub fn new(bytes: Vec<u8>) -> (task: Self)
        ensures
            task.bytes_view() == bytes@,
    {
        ClassifyPdfTask { bytes }
    }

    /// Moves the bytes out of the task, as a run does before it classifies.
    pub fn take_input(&mut self) -> (bytes: Vec<u8>)
        ensures
            bytes@ == old(self).bytes_view(),
            final(self).bytes_view().len() == 0,
    {
        take_bytes(&mut self.bytes)
    }
}

/// A per-page Markdown extraction that runs off the caller's thread.
pub struct ExtractPagesMarkdownTask {
    bytes: Vec<u8>,
    pages: Option<Vec<u32>>,
}

impl ExtractPagesMarkdownTask {
    pub closed spec fn bytes_view(&self) -> Seq<u8> {
        self.bytes@
    }

    pub closed spec fn pages_view(&self) -> Option<Seq<u32>> {
        match self.pages {
            Some(p) => Some(p@),
            None => None,
        }
    }

    /// A task over copied bytes and an optional selection of 0-indexed
    /// pages.
    pub fn new(bytes: Vec<u8>, pages: Option<Vec<u32>>) -> (task: Self)
        ensures
            task.bytes_view() == bytes@,
            task.pages_view() == (match pages {
                Some(p) => Some(p@),
                None => None,
            }),
    {
        ExtractPagesMarkdownTask { bytes, pages }
    }

    /// Moves the input out of the task, as a run does before it extracts.
    pub fn take_input(&mut self) -> (input: (Vec<u8>, Option<Vec<u32>>))
        ensures
            input.0@ == old(self).bytes_view(),
            (match input.1 {
                Some(p) => Some(p@),
                None => None,
            }) == old(self).pages_view(),
            final(self).bytes_view().len() == 0,
            final(self).pages_view() is None,
    {
        let bytes = take_bytes(&mut self.bytes);
        let pages = self.pages.take();
        (bytes, pages)
    }
}

} // verus!
