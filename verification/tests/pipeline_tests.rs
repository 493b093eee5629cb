use std::collections::BTreeMap;

use pdf_inspector::fusion::{
    assess_native_candidate, fuse_ocr_pages, fuse_ocr_pages_adaptive_with_routes,
    ocr_page_to_markdown, AdaptiveEvidence, FusedPages, NativeCandidateOrigin,
    NativeFallbackCandidate, OcrFusionError, OcrFusionRoute, OcrModelIdentity, OcrRun,
    PageMarkdownResult, RoutedOcrPage,
};
use pdf_inspector::layout::{ImagePoint, OcrLayoutPage, OcrLine, IMAGE_UNITS_PER_PIXEL};
use pdf_inspector::model::PageContentSource;

fn units(v: f32) -> i64 {
    (v * IMAGE_UNITS_PER_PIXEL as f32).round() as i64
}

fn native(page: u32, markdown: &str, needs_ocr: bool) -> PageMarkdownResult {
    PageMarkdownResult {
        page,
        markdown: markdown.to_string(),
        needs_ocr,
        ocr_reason: if needs_ocr { Some("scanned".to_string()) } else { None },
    }
}

fn positioned_span(text: &str, left: f32, top: f32, right: f32, bottom: f32) -> OcrLine {
    OcrLine {
        text: text.to_string(),
        quad: Some([
            ImagePoint { x: units(left), y: units(top) },
            ImagePoint { x: units(right), y: units(top) },
            ImagePoint { x: units(right), y: units(bottom) },
            ImagePoint { x: units(left), y: units(bottom) },
        ]),
    }
}

fn span(text: &str, top: f32) -> OcrLine {
    positioned_span(text, 10.0, top, 190.0, top + 10.0)
}

/// A routed page of a 200x100 rendering. `assembled` is the Markdown the
/// layout pipeline produced from the page's OCR items for its route.
fn routed_page(page: u32, lines: Vec<OcrLine>, assembled: &str, weak: bool) -> RoutedOcrPage {
    RoutedOcrPage {
        page_number: page,
        layout: OcrLayoutPage { image_width: 200, image_height: 100, lines },
        assembled_markdown: assembled.to_string(),
        weak_confidence: weak,
        model: OcrModelIdentity { name: "test-ocr".to_string(), revision: "v1".to_string() },
        processing_time_ms: 7,
        warnings: Vec::new(),
    }
}

fn run(pages: Vec<RoutedOcrPage>) -> OcrRun {
    OcrRun { pages, render_time_ms: 5, ocr_time_ms: 7 }
}

fn native_candidate(markdown: &str) -> NativeFallbackCandidate {
    assess_native_candidate(markdown.to_string(), NativeCandidateOrigin::Extractor, true).unwrap()
}

fn adaptive(
    natives: &Vec<PageMarkdownResult>,
    run: &OcrRun,
    candidate: &str,
    ocr_text_clean: bool,
    ocr_scores_lower: bool,
) -> FusedPages {
    let mut candidates = BTreeMap::new();
    candidates.insert(
        1,
        AdaptiveEvidence {
            candidate: native_candidate(candidate),
            ocr_text_clean,
            ocr_scores_lower,
        },
    );
    let mut routes = BTreeMap::new();
    for page in &run.pages {
        routes.insert(page.page_number, OcrFusionRoute::FullPage);
    }
    fuse_ocr_pages_adaptive_with_routes(natives, run, &candidates, &routes).unwrap()
}

#[test]
fn supplemental_image_ocr_keeps_native_text_without_a_valid_table() {
    let natives = vec![native(0, "Native article text\n", false)];
    let run = run(vec![routed_page(
        1,
        vec![positioned_span("Figure-only OCR label", 20.0, 20.0, 180.0, 35.0)],
        "",
        false,
    )]);
    let mut routes = BTreeMap::new();
    routes.insert(1, OcrFusionRoute::SupplementalRegions);

    let result =
        fuse_ocr_pages_adaptive_with_routes(&natives, &run, &BTreeMap::new(), &routes).unwrap();

    assert_eq!(result.pages[0].markdown, "Native article text\n");
    assert_eq!(result.pages[0].provenance.source, PageContentSource::Native);
    assert!(result.pages[0].provenance.warnings[0].contains("no valid table"));
}

#[test]
fn supplemental_image_ocr_fuses_a_table_inside_the_region() {
    let natives = vec![native(0, "Native article text\n", false)];
    let mut lines = Vec::new();
    for (row, (left, right)) in [
        ("Metric", "Value"),
        ("Accuracy", "95%"),
        ("Recall", "93%"),
        ("Precision", "96%"),
    ]
    .into_iter()
    .enumerate()
    {
        let top = 10.0 + row as f32 * 20.0;
        lines.push(positioned_span(left, 10.0, top, 80.0, top + 10.0));
        lines.push(positioned_span(right, 110.0, top, 180.0, top + 10.0));
    }
    let table = "|Metric|Value|\n|---|---|\n|Accuracy|95%|\n|Recall|93%|\n|Precision|96%|\n";
    let run = run(vec![routed_page(1, lines, table, false)]);
    let mut routes = BTreeMap::new();
    routes.insert(1, OcrFusionRoute::SupplementalRegions);

    let result =
        fuse_ocr_pages_adaptive_with_routes(&natives, &run, &BTreeMap::new(), &routes).unwrap();

    assert_eq!(result.pages[0].provenance.source, PageContentSource::Fused);
    assert!(result.pages[0].markdown.contains("|Metric|Value|"));
    assert!(result.pages[0].markdown.contains("|Accuracy|95%|"));
    assert_eq!(result.pages[0].markdown.matches("Native article").count(), 1);
}

// The geometric ordering itself is the layout pipeline's, which hands its
// Markdown in as `assembled_markdown`: here this test checks that fusion keeps
// that order and records the page's provenance.
#[test]
fn scanned_page_uses_geometry_ordered_ocr_and_provenance() {
    let natives = vec![native(0, "", true)];
    let run = run(vec![routed_page(
        1,
        vec![span("Second line", 30.0), span("First line", 10.0)],
        "First line\nSecond line\n",
        false,
    )]);

    let result = fuse_ocr_pages(&natives, &run).unwrap();

    assert!(
        result.pages[0].markdown.find("First").unwrap()
            < result.pages[0].markdown.find("Second").unwrap()
    );
    assert_eq!(result.pages[0].provenance.source, PageContentSource::Ocr);
    assert_eq!(result.pages[0].page_number, 1);
    assert_eq!(result.pages[0].page_number, result.pages[0].provenance.page_number);
    assert_eq!(result.pages[0].provenance.ocr_model.as_ref().unwrap().name, "test-ocr");
    assert!(!result.pages[0].provenance.hosted_recommended);
}

#[test]
fn ocr_assembly_preserves_well_separated_detected_rows() {
    let page = routed_page(
        1,
        vec![
            positioned_span("Column A Column B", 10.0, 10.0, 190.0, 20.0),
            positioned_span("First row value", 10.0, 35.0, 190.0, 45.0),
            positioned_span("Second row value", 10.0, 60.0, 190.0, 70.0),
        ],
        "Column A Column B\nFirst row value\nSecond row value\n",
        false,
    );

    let markdown = ocr_page_to_markdown(&page);

    assert!(markdown.contains("Column A Column B\n\n"), "{markdown:?}");
    assert!(markdown.contains("First row value\n\n"), "{markdown:?}");
}

#[test]
fn force_mode_deduplicates_native_content() {
    let natives = vec![native(0, "Hello, world!\n", false)];
    let run = run(vec![routed_page(1, vec![span("Hello world", 10.0)], "Hello world\n", false)]);

    let result = fuse_ocr_pages(&natives, &run).unwrap();

    assert_eq!(result.pages[0].markdown, "Hello, world!\n");
    assert_eq!(result.pages[0].provenance.source, PageContentSource::Native);
}

#[test]
fn adaptive_fallback_keeps_native_text_when_ocr_is_weak() {
    let natives = vec![native(0, "", true)];
    let run = run(vec![routed_page(
        1,
        vec![span("Inv0ice total uncertain", 10.0)],
        "Inv0ice total uncertain\n",
        true,
    )]);

    let result = adaptive(&natives, &run, "Invoice total: $420.00\nPayment received\n", true, false);

    assert_eq!(result.pages[0].provenance.source, PageContentSource::Native);
    assert_eq!(result.pages[0].markdown, "Invoice total: $420.00\nPayment received\n");
    assert!(result.pages[0].provenance.hosted_recommended);
    assert!(result.pages[0].provenance.warnings[0].contains("OCR was weak"));
}

#[test]
fn adaptive_fallback_prefers_exact_native_text_over_duplicate_ocr() {
    let natives = vec![native(0, "", true)];
    let run = run(vec![routed_page(
        1,
        vec![span("Invoice total 420.00 Payment received", 10.0)],
        "Invoice total 420.00 Payment received\n",
        false,
    )]);

    let result = adaptive(&natives, &run, "Invoice total: $420.00\nPayment received\n", true, false);

    assert_eq!(result.pages[0].provenance.source, PageContentSource::Native);
    assert!(result.pages[0].provenance.hosted_recommended);
    assert_eq!(result.pages[0].markdown.matches("Invoice").count(), 1);
    assert!(result.pages[0].provenance.warnings[0].contains("no material coverage"));
}

#[test]
fn adaptive_fallback_fuses_short_novel_ocr_content() {
    let natives = vec![native(0, "", true)];
    let run = run(vec![routed_page(1, vec![span("Status ready 42", 10.0)], "Status ready 42\n", false)]);

    let result = adaptive(&natives, &run, "Status ready\n", true, false);

    assert_eq!(result.pages[0].provenance.source, PageContentSource::Fused);
    assert!(result.pages[0].markdown.contains("42"));
    assert!(!result.pages[0].provenance.hosted_recommended);
}

#[test]
fn adaptive_fallback_recommends_hosted_for_high_confidence_garbage_ocr() {
    let natives = vec![native(0, "", true)];
    let garbage = "a@@b%%c&&d==e~~".repeat(12);
    let run = run(vec![routed_page(1, vec![span(&garbage, 10.0)], &garbage, false)]);

    let result = adaptive(&natives, &run, "Invoice total 420\n", false, false);

    assert_eq!(result.pages[0].provenance.source, PageContentSource::Native);
    assert!(result.pages[0].provenance.hosted_recommended);
    assert!(!result.pages[0].markdown.contains("@@"));
}

#[test]
fn adaptive_fallback_fuses_native_header_with_scanned_body() {
    let natives = vec![native(0, "", true)];
    let run = run(vec![routed_page(
        1,
        vec![
            span("Quarterly account report", 10.0),
            span("March revenue 420 units", 30.0),
            span("April revenue 510 units", 50.0),
        ],
        "Quarterly account report\nMarch revenue 420 units\nApril revenue 510 units\n",
        false,
    )]);

    let result = adaptive(&natives, &run, "# Quarterly account report\n", true, false);

    assert_eq!(result.pages[0].provenance.source, PageContentSource::Fused);
    assert_eq!(result.pages[0].markdown.matches("Quarterly").count(), 1);
    assert!(result.pages[0].markdown.contains("March revenue 420 units"));
    assert!(result.pages[0].markdown.contains("April revenue 510 units"));
    assert!(result.pages[0].provenance.warnings[0].contains("complementary"));
}

#[test]
fn native_candidate_scoring_is_multilingual_and_rejects_garbage() {
    assert!(assess_native_candidate(
        "請求書 合計金額 4200円\n支払済み\n".to_string(),
        NativeCandidateOrigin::Extractor,
        true,
    )
    .is_some());
    assert!(assess_native_candidate(
        "a@@b%%c&&d==e~~".repeat(12),
        NativeCandidateOrigin::Extractor,
        false,
    )
    .is_none());
}

#[test]
fn force_mode_appends_only_additional_ocr_blocks() {
    let natives = vec![native(0, "Native title\n", false)];
    let run = run(vec![routed_page(
        1,
        vec![span("Native title", 10.0), span("Image-only label", 30.0)],
        "Native title\nImage-only label\n",
        false,
    )]);

    let result = fuse_ocr_pages(&natives, &run).unwrap();

    assert_eq!(result.pages[0].provenance.source, PageContentSource::Fused);
    assert_eq!(result.pages[0].markdown.matches("Native title").count(), 1);
    assert!(result.pages[0].markdown.contains("Image-only label"));
}

#[test]
fn force_mode_deduplicates_reordered_tokens() {
    let natives = vec![native(0, "Alpha Beta Gamma\n", false)];
    let run = run(vec![routed_page(1, vec![span("Gamma Alpha Beta", 10.0)], "Gamma Alpha Beta\n", false)]);

    let result = fuse_ocr_pages(&natives, &run).unwrap();

    assert_eq!(result.pages[0].provenance.source, PageContentSource::Native);
    assert_eq!(result.pages[0].markdown, "Alpha Beta Gamma\n");
}

#[test]
fn fusion_preserves_native_leading_indentation() {
    let natives = vec![native(0, "    indented code\n", false)];
    let duplicate = run(vec![routed_page(1, vec![span("indented code", 10.0)], "indented code\n", false)]);
    let result = fuse_ocr_pages(&natives, &duplicate).unwrap();
    assert_eq!(result.pages[0].markdown, "    indented code\n");

    let addition = run(vec![routed_page(1, vec![span("image label", 10.0)], "image label\n", false)]);
    let result = fuse_ocr_pages(&natives, &addition).unwrap();
    assert_eq!(result.pages[0].markdown, "    indented code\n\nimage label\n");
}

#[test]
fn missing_or_weak_required_ocr_recommends_hosted() {
    let natives = vec![native(0, "", true), native(1, "", true)];
    let run = run(vec![routed_page(2, vec![span("uncertain", 10.0)], "uncertain\n", true)]);

    let result = fuse_ocr_pages(&natives, &run).unwrap();

    assert!(result.pages[0].provenance.hosted_recommended);
    assert!(result.pages[1].provenance.hosted_recommended);
}

#[test]
fn rejects_ocr_pages_outside_native_selection() {
    let natives = vec![native(0, "text", false)];
    let error = fuse_ocr_pages(&natives, &run(vec![routed_page(2, Vec::new(), "", true)]))
        .err()
        .unwrap();
    assert_eq!(error, OcrFusionError::UnexpectedOcrPage { page: 2 });
}

#[test]
fn fused_pages_carry_ocr_spans_with_geometry() {
    let natives = vec![native(0, "", true)];
    let run = run(vec![routed_page(
        1,
        vec![
            positioned_span("Alpha line", 10.0, 10.0, 190.0, 22.0),
            positioned_span("   ", 10.0, 30.0, 190.0, 42.0),
            positioned_span("Beta line", 10.0, 50.0, 190.0, 62.0),
        ],
        "Alpha line\nBeta line\n",
        false,
    )]);

    let result = fuse_ocr_pages(&natives, &run).unwrap();

    assert_eq!(result.pages[0].provenance.source, PageContentSource::Ocr);
    assert!(result.pages[0].provenance.ocr_processed);
    // The blank span is dropped; text and line indices pass through.
    let spans = &result.pages[0].spans;
    assert_eq!(spans.len(), 2);
    assert_eq!(spans[0].text, "Alpha line");
    assert_eq!(spans[1].text, "Beta line");
    assert_eq!((spans[0].line, spans[1].line), (0, 2));
    // Image frame: the first line lies above the second.
    assert!(spans[0].top < spans[1].top);
    for span in spans {
        assert!(span.right - span.left > units(100.0) && span.bottom > span.top);
        assert!((0..=units(200.0)).contains(&span.left));
        assert!((0..=units(100.0)).contains(&span.top));
    }
}

#[test]
fn pages_without_ocr_report_no_spans() {
    let natives = vec![native(0, "text", false), native(1, "more", false)];
    let run = run(vec![routed_page(2, vec![], "", false)]);

    let result = fuse_ocr_pages(&natives, &run).unwrap();

    assert!(result.pages[0].spans.is_empty());
    assert!(!result.pages[0].provenance.ocr_processed);
    assert!(result.pages[0].provenance.ocr_model.is_none());
    assert!(result.pages[1].spans.is_empty());
    assert!(result.pages[1].provenance.ocr_processed);
    assert_eq!(result.pages[1].provenance.timings.render_ms, 5);
    assert_eq!(result.pages[1].provenance.timings.ocr_ms, 7);
    assert!(!result.pages[1].provenance.hosted_recommended);
}
