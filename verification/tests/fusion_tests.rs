use pdf_inspector::layout::{
    preserve_ocr_line_breaks, ImagePoint, OcrLayoutPage, OcrLine, IMAGE_UNITS_PER_PIXEL,
};
use pdf_inspector::merge::merge_native_and_ocr;
use pdf_inspector::model::PageContentSource;
use pdf_inspector::timing::equal_time_shares;

fn units(v: f32) -> i64 {
    (v * IMAGE_UNITS_PER_PIXEL as f32).round() as i64
}

fn positioned_span(text: &str, left: f32, top: f32, right: f32, bottom: f32) -> OcrLine {
    OcrLine {
        text: text.to_string(),
        quad: Some([
            ImagePoint { x: units(left), y: units(top) },
            ImagePoint { x: units(right), y: units(top) },
            ImagePoint { x: units(right), y: units(bottom) },
            ImagePoint { x: units(left), y: units(bottom) },
        ]),
    }
}

fn routed_page(lines: Vec<OcrLine>) -> OcrLayoutPage {
    OcrLayoutPage {
        image_width: 200,
        image_height: 100,
        lines,
    }
}

#[test]
fn line_break_recovery_uses_markdown_reading_order_for_columns() {
    let page = routed_page(vec![
        positioned_span("Left top", 10.0, 10.0, 90.0, 20.0),
        positioned_span("Right top", 110.0, 10.0, 190.0, 20.0),
        positioned_span("Left bottom", 10.0, 40.0, 90.0, 50.0),
        positioned_span("Right bottom", 110.0, 40.0, 190.0, 50.0),
    ]);
    let markdown = "Left top Left bottom\n\nRight top Right bottom";

    let recovered = preserve_ocr_line_breaks(markdown, &page);

    assert_eq!(
        recovered,
        "Left top\n\nLeft bottom\n\nRight top\n\nRight bottom"
    );
}

#[test]
fn line_break_recovery_preserves_tables_but_handles_page_prose() {
    let page = routed_page(vec![
        positioned_span("A", 10.0, 10.0, 90.0, 20.0),
        positioned_span("B", 110.0, 10.0, 190.0, 20.0),
        positioned_span("x", 10.0, 30.0, 90.0, 40.0),
        positioned_span("y", 110.0, 30.0, 190.0, 40.0),
        positioned_span("First prose", 10.0, 60.0, 190.0, 70.0),
        positioned_span("Second prose", 10.0, 90.0, 190.0, 100.0),
    ]);
    let markdown = "| A | B |\n|---|---|\n| x | y |\n\nFirst prose Second prose";

    let recovered = preserve_ocr_line_breaks(markdown, &page);

    assert!(recovered.starts_with("| A | B |\n|---|---|\n| x | y |"));
    assert!(recovered.ends_with("First prose\n\nSecond prose"));
}

#[test]
fn line_break_recovery_accepts_normalized_list_markers() {
    let page = routed_page(vec![
        positioned_span("• First item", 10.0, 10.0, 190.0, 20.0),
        positioned_span("Next paragraph", 10.0, 40.0, 190.0, 50.0),
    ]);

    let recovered = preserve_ocr_line_breaks("- First item Next paragraph", &page);

    assert_eq!(recovered, "- First item\n\nNext paragraph");
}

#[test]
fn line_break_recovery_accepts_white_bullet_list_markers() {
    let page = routed_page(vec![
        positioned_span("◦ First item", 10.0, 10.0, 190.0, 20.0),
        positioned_span("Next paragraph", 10.0, 40.0, 190.0, 50.0),
    ]);

    let recovered = preserve_ocr_line_breaks("- First item Next paragraph", &page);

    assert_eq!(recovered, "- First item\n\nNext paragraph");
}

#[test]
fn line_break_recovery_leaves_ambiguous_duplicates_unchanged() {
    let page = routed_page(vec![
        positioned_span("Repeated", 10.0, 10.0, 190.0, 20.0),
        positioned_span("Repeated", 10.0, 40.0, 190.0, 50.0),
    ]);
    let markdown = "Repeated Repeated";

    assert_eq!(preserve_ocr_line_breaks(markdown, &page), markdown);
}

#[test]
fn force_mode_preserves_punctuation_and_short_distinct_blocks() {
    let (markdown, source) = merge_native_and_ocr("Figure 1\n", "1\n\n***");
    assert_eq!(source, PageContentSource::Fused);
    assert_eq!(markdown, "Figure 1\n\n1\n\n***\n");
}

#[test]
fn force_mode_extracts_only_novel_tokens_from_overlapping_blocks() {
    let (markdown, source) = merge_native_and_ocr("A C\n", "## A B C");
    assert_eq!(source, PageContentSource::Fused);
    assert_eq!(markdown, "A C\n\nB\n");
    assert_eq!(markdown.matches('A').count(), 1);
    assert_eq!(markdown.matches('C').count(), 1);
}

#[test]
fn time_shares_preserve_batch_total() {
    assert_eq!(equal_time_shares(8, 3), vec![3, 3, 2]);
    assert_eq!(equal_time_shares(8, 0), Vec::<u64>::new());
}

#[test]
fn line_break_recovery_changes_only_white_space() {
    let page = routed_page(vec![
        positioned_span("Left top", 10.0, 10.0, 90.0, 20.0),
        positioned_span("Right top", 110.0, 10.0, 190.0, 20.0),
        positioned_span("Left bottom", 10.0, 40.0, 90.0, 50.0),
        positioned_span("Right bottom", 110.0, 40.0, 190.0, 50.0),
    ]);
    let markdown = "Left top Left bottom\n\nRight top Right bottom";
    let recovered = preserve_ocr_line_breaks(markdown, &page);
    assert_ne!(recovered, markdown);
    let visible = |s: &str| s.chars().filter(|c| !c.is_whitespace()).collect::<String>();
    assert_eq!(visible(&recovered), visible(markdown));
}

#[test]
fn line_break_recovery_ignores_line_order() {
    let lines = || {
        vec![
            positioned_span("Left top", 10.0, 10.0, 90.0, 20.0),
            positioned_span("Right top", 110.0, 10.0, 190.0, 20.0),
            positioned_span("Left bottom", 10.0, 40.0, 90.0, 50.0),
            positioned_span("Right bottom", 110.0, 40.0, 190.0, 50.0),
        ]
    };
    let markdown = "Left top Left bottom\n\nRight top Right bottom";
    let mut reordered = lines();
    reordered.reverse();
    reordered.swap(0, 2);
    assert_eq!(
        preserve_ocr_line_breaks(markdown, &routed_page(reordered)),
        preserve_ocr_line_breaks(markdown, &routed_page(lines()))
    );
}
