use std::collections::BTreeMap;

use pdf_inspector::bindings::{
    convert_item_type, item_type_str, page_content_source_str, page_rotations, parse_ocr_mode,
    pdf_type_str, ClassifyPdfTask, ExtractPagesMarkdownTask, FrameRotation, ItemType, OcrMode,
    PdfType, ProcessPdfTask, TextItemKind,
};
use pdf_inspector::clock::{elapsed_ms, millis_as_u64};
use pdf_inspector::compare::{content_overlap, ComparisonKey};
use pdf_inspector::fusion::{
    decimal_of, text_candidate_counts, fuse_ocr_pages, fuse_ocr_pages_adaptive_with_routes, full_page_routes,
    NativeCandidateOrigin, OcrFusionError, OcrFusionRoute, OcrModelIdentity, OcrRun,
    PageMarkdownResult, RoutedOcrPage,
};
use pdf_inspector::layout::{image_quad_bounds, ImagePoint, OcrLayoutPage, OcrLine};
use pdf_inspector::merge::merge_native_and_ocr;
use pdf_inspector::model::PageContentSource;
use pdf_inspector::raster::{
    distinct_pages, encode_rendered_pages, repack_rgb_rows, requested_pages, RasterError,
    RenderedBitmap, RASTER_DEFAULT_DPI, RASTER_MAX_DPI, RASTER_MAX_PAGES,
    RASTER_MAX_PIXELS_PER_PAGE, RASTER_MAX_TOTAL_BYTES,
};
use pdf_inspector::text::{ensure_trailing_newline, lines_of, trim_chars};
use pdf_inspector::timing::{equal_time_shares, timing_ms};

fn native(page: u32, markdown: &str, needs_ocr: bool) -> PageMarkdownResult {
    PageMarkdownResult { page, markdown: markdown.to_string(), needs_ocr, ocr_reason: None }
}

fn line(text: &str, top: i64) -> OcrLine {
    let (l, r, t, b) = (10 * 1024, 190 * 1024, top * 1024, (top + 10) * 1024);
    OcrLine {
        text: text.to_string(),
        quad: Some([
            ImagePoint { x: l, y: t },
            ImagePoint { x: r, y: t },
            ImagePoint { x: r, y: b },
            ImagePoint { x: l, y: b },
        ]),
    }
}

fn page(number: u32, lines: Vec<OcrLine>, assembled: &str, weak: bool) -> RoutedOcrPage {
    RoutedOcrPage {
        page_number: number,
        layout: OcrLayoutPage { image_width: 200, image_height: 100, lines },
        assembled_markdown: assembled.to_string(),
        weak_confidence: weak,
        model: OcrModelIdentity { name: "m".to_string(), revision: "r".to_string() },
        processing_time_ms: 9,
        warnings: vec!["engine note".to_string()],
    }
}

#[test]
fn resource_limits_are_pinned() {
    assert_eq!(RASTER_MAX_PAGES, 8);
    assert_eq!(RASTER_DEFAULT_DPI, 150);
    assert_eq!(RASTER_MAX_DPI, 300);
    assert!(RASTER_MAX_PIXELS_PER_PAGE > 0);
    assert!(RASTER_MAX_TOTAL_BYTES > 0);
}

#[test]
fn validation_fails_closed_without_touching_pdfium() {
    assert_eq!(requested_pages(&vec![]).err(), Some(RasterError::EmptyPages));
    let nine: Vec<u32> = (1..=9).collect();
    assert_eq!(
        requested_pages(&nine).err(),
        Some(RasterError::TooManyPages { requested: 9 })
    );
}

#[test]
fn page_requests_keep_first_occurrence_order() {
    assert_eq!(distinct_pages(&vec![2, 1, 2, 1]), vec![2, 1]);
    assert_eq!(requested_pages(&vec![3, 3, 3, 1]).unwrap(), vec![3, 1]);
    // Repeats do not count against the page cap.
    let mut many = vec![1, 2, 3, 4, 5, 6, 7, 8];
    many.extend_from_slice(&[1, 2, 3, 4, 5, 6, 7, 8]);
    assert_eq!(requested_pages(&many).unwrap().len(), 8);
}

#[test]
fn rows_are_repacked_without_padding() {
    // 2x2 RGB with one byte of padding per row (stride 7).
    let pixels: Vec<u8> = vec![1, 2, 3, 4, 5, 6, 0, 7, 8, 9, 10, 11, 12, 0];
    assert_eq!(
        repack_rgb_rows(&pixels, 2, 2, 7).unwrap(),
        vec![1, 2, 3, 4, 5, 6, 7, 8, 9, 10, 11, 12]
    );
    assert_eq!(repack_rgb_rows(&pixels, 2, 2, 5).err(), Some(RasterError::InvalidBuffer));
    assert_eq!(repack_rgb_rows(&pixels, 2, 3, 7).err(), Some(RasterError::InvalidBuffer));
    assert_eq!(repack_rgb_rows(&pixels, 0, 2, 7).err(), Some(RasterError::InvalidBuffer));
}

#[test]
fn rendered_pages_become_pngs_in_order() {
    let bitmap = |page: u32| RenderedBitmap {
        page,
        width: 2,
        height: 1,
        stride: 8,
        rgb8: true,
        pixels: vec![255, 0, 0, 0, 255, 0, 9, 9],
    };
    let pages = encode_rendered_pages(&vec![bitmap(2), bitmap(1)]).unwrap();
    assert_eq!(pages.iter().map(|p| p.page_number).collect::<Vec<_>>(), vec![2, 1]);
    for p in &pages {
        assert_eq!(&p.png[0..8], &[137, 80, 78, 71, 13, 10, 26, 10]);
        assert_eq!(&p.png[12..16], b"IHDR");
        assert_eq!(u32::from_be_bytes(p.png[16..20].try_into().unwrap()), 2);
        assert_eq!(u32::from_be_bytes(p.png[20..24].try_into().unwrap()), 1);
        assert_eq!((p.width, p.height), (2, 1));
    }
}

#[test]
fn rendered_pages_fail_closed() {
    let good = RenderedBitmap { page: 1, width: 1, height: 1, stride: 3, rgb8: true, pixels: vec![1, 2, 3] };
    let not_rgb = RenderedBitmap { rgb8: false, ..good_copy(&good) };
    assert_eq!(encode_rendered_pages(&vec![not_rgb]).err(), Some(RasterError::InvalidBuffer));
    let huge = RenderedBitmap { page: 4, width: 4000, height: 4000, stride: 12000, rgb8: true, pixels: vec![] };
    assert_eq!(
        encode_rendered_pages(&vec![good_copy(&good), huge]).err(),
        Some(RasterError::PageTooLarge { page: 4, width: 4000, height: 4000 })
    );
    let empty = RenderedBitmap { page: 5, width: 0, height: 7, stride: 0, rgb8: true, pixels: vec![] };
    assert_eq!(
        encode_rendered_pages(&vec![empty]).err(),
        Some(RasterError::PageTooLarge { page: 5, width: 0, height: 7 })
    );
    let short = RenderedBitmap { pixels: vec![1, 2], ..good_copy(&good) };
    assert_eq!(encode_rendered_pages(&vec![short]).err(), Some(RasterError::InvalidBuffer));
}

fn good_copy(b: &RenderedBitmap) -> RenderedBitmap {
    RenderedBitmap {
        page: b.page,
        width: b.width,
        height: b.height,
        stride: b.stride,
        rgb8: b.rgb8,
        pixels: b.pixels.clone(),
    }
}

#[test]
fn binding_names() {
    assert_eq!(pdf_type_str(PdfType::TextBased), "text_based");
    assert_eq!(pdf_type_str(PdfType::ImageBased), "image_based");
    assert_eq!(pdf_type_str(PdfType::Scanned), "scanned");
    assert_eq!(pdf_type_str(PdfType::Mixed), "mixed");
    assert_eq!(page_content_source_str(PageContentSource::Fused), "fused");
    assert_eq!(page_content_source_str(PageContentSource::Ocr), "ocr");
    assert_eq!(item_type_str(&TextItemKind::Link("https://x.test/a".to_string())), "link:https://x.test/a");
    assert_eq!(item_type_str(&TextItemKind::FormField), "form_field");
    let (kind, url) = convert_item_type(&TextItemKind::Link("u".to_string()));
    assert_eq!(kind, ItemType::Link);
    assert_eq!(url.as_deref(), Some("u"));
    assert_eq!(convert_item_type(&TextItemKind::Image), (ItemType::Image, None));
}

#[test]
fn ocr_modes_parse_case_and_space_insensitively() {
    assert_eq!(parse_ocr_mode(" Force\n"), Some(OcrMode::Force));
    assert_eq!(parse_ocr_mode("AUTO"), Some(OcrMode::Auto));
    assert_eq!(parse_ocr_mode("off"), Some(OcrMode::Off));
    assert_eq!(parse_ocr_mode("o ff"), None);
    assert_eq!(parse_ocr_mode(""), None);
}

#[test]
fn page_rotations_drop_upright_pages_and_sort() {
    let out = page_rotations(&vec![
        (5, FrameRotation::Cw),
        (2, FrameRotation::Upright),
        (3, FrameRotation::Ccw),
        (1, FrameRotation::Cw),
    ]);
    let pairs: Vec<(u32, String)> = out.into_iter().map(|r| (r.page, r.rotation)).collect();
    assert_eq!(
        pairs,
        vec![(1, "cw".to_string()), (3, "ccw".to_string()), (5, "cw".to_string())]
    );
}

#[test]
fn tasks_hand_over_their_input_once() {
    let mut task = ProcessPdfTask::new(vec![1, 2, 3], Some(vec![4]));
    let (bytes, pages) = task.take_input();
    assert_eq!(bytes, vec![1, 2, 3]);
    assert_eq!(pages, Some(vec![4]));
    let (bytes, pages) = task.take_input();
    assert!(bytes.is_empty() && pages.is_none());
    let mut classify = ClassifyPdfTask::new(vec![9]);
    assert_eq!(classify.take_input(), vec![9]);
    assert!(classify.take_input().is_empty());
    let mut extract = ExtractPagesMarkdownTask::new(vec![7], None);
    assert_eq!(extract.take_input(), (vec![7], None));
}

#[test]
fn timings_saturate_and_split_exactly() {
    assert_eq!(timing_ms(17), 17);
    assert_eq!(timing_ms(u64::MAX), u32::MAX);
    let shares = equal_time_shares(10, 4);
    assert_eq!(shares, vec![3, 3, 2, 2]);
    assert_eq!(shares.iter().sum::<u64>(), 10);
    assert!(elapsed_ms(&std::time::Instant::now()) < 60_000);
}

#[test]
fn merging_a_page_with_itself_keeps_it_native() {
    for text in ["Alpha\n\nBeta gamma", "| a | b |\n", "Hello, world!"] {
        let (markdown, source) = merge_native_and_ocr(text, text);
        assert_eq!(source, PageContentSource::Native);
        assert_eq!(markdown, ensure_trailing_newline(text));
    }
}

#[test]
fn text_helpers_follow_unicode_classes() {
    assert_eq!(trim_chars(&[' ', '\u{3000}', 'a', '\t']), vec!['a']);
    assert_eq!(content_overlap(&['Ä', 'b', '!'], &['ä', 'B', 'c']), 2);
    let key = ComparisonKey::new(&"Straße, 42!".chars().collect::<Vec<_>>());
    assert!(!key.is_empty());
    let other = ComparisonKey::new(&"42 STRASSE".chars().collect::<Vec<_>>());
    assert!(!key.same_content(&other));
    let same = ComparisonKey::new(&"42 straße".chars().collect::<Vec<_>>());
    assert!(key.same_content(&same));
    assert!(same.same_content(&key));
    assert_eq!(decimal_of(305), vec!['3', '0', '5']);
    assert_eq!(NativeCandidateOrigin::Pdfium.description(), "PDFium native recovery");
}

#[test]
fn quad_bounds_clamp_and_reject_empty_boxes() {
    let quad = [
        ImagePoint { x: -5, y: 3 },
        ImagePoint { x: 50, y: 3 },
        ImagePoint { x: 50, y: 9 },
        ImagePoint { x: -5, y: 9 },
    ];
    assert_eq!(image_quad_bounds(&quad, 40, 100), Some((0, 3, 40, 9)));
    let flat = [ImagePoint { x: 1, y: 1 }; 4];
    assert_eq!(image_quad_bounds(&flat, 40, 100), None);
}

#[test]
fn fusion_reports_page_set_errors() {
    let r = fuse_ocr_pages(&vec![native(u32::MAX, "x", false)], &OcrRun { pages: vec![], render_time_ms: 0, ocr_time_ms: 0 });
    assert_eq!(r.err(), Some(OcrFusionError::PageOverflow));
    let r = fuse_ocr_pages(&vec![native(0, "x", false), native(0, "y", false)], &OcrRun { pages: vec![], render_time_ms: 0, ocr_time_ms: 0 });
    assert_eq!(r.err(), Some(OcrFusionError::DuplicateNativePage { page: 1 }));
    let run = OcrRun { pages: vec![page(1, vec![], "", false), page(1, vec![], "", false)], render_time_ms: 0, ocr_time_ms: 0 };
    let r = fuse_ocr_pages(&vec![native(0, "x", false)], &run);
    assert_eq!(r.err(), Some(OcrFusionError::DuplicateOcrPage { page: 1 }));
    let run = OcrRun { pages: vec![page(1, vec![], "", false)], render_time_ms: 0, ocr_time_ms: 0 };
    let r = fuse_ocr_pages_adaptive_with_routes(&vec![native(0, "x", false)], &run, &BTreeMap::new(), &BTreeMap::new());
    assert_eq!(r.err(), Some(OcrFusionError::MissingOcrRoute { page: 1 }));
}

#[test]
fn fusion_records_provenance_and_shares_render_time() {
    let natives = vec![native(0, "", true), native(1, "Clean text\n", false), native(2, "", true)];
    let blank_line = OcrLine { text: "  ".to_string(), quad: None };
    let run = OcrRun {
        pages: vec![
            page(1, vec![line("Scanned words", 10), blank_line], "Scanned words\n", false),
            page(2, vec![line("Clean text", 10)], "Clean text\n", false),
        ],
        render_time_ms: 5,
        ocr_time_ms: 11,
    };
    let routes = full_page_routes(&run);
    assert_eq!(routes.get(&1), Some(&OcrFusionRoute::FullPage));
    let fused = fuse_ocr_pages(&natives, &run).unwrap();
    assert_eq!((fused.render_time_ms, fused.ocr_time_ms), (5, 11));
    let first = &fused.pages[0];
    assert_eq!(first.markdown, "Scanned words\n");
    assert_eq!(first.provenance.source, PageContentSource::Ocr);
    assert_eq!(first.provenance.timings.render_ms, 3);
    assert_eq!(first.provenance.timings.ocr_ms, 9);
    assert_eq!(
        first.provenance.warnings,
        vec!["discarded 1 OCR spans with unusable text or geometry".to_string(), "engine note".to_string()]
    );
    assert!(!first.provenance.hosted_recommended);
    let second = &fused.pages[1];
    assert_eq!(second.markdown, "Clean text\n");
    assert_eq!(second.provenance.source, PageContentSource::Native);
    assert_eq!(second.provenance.timings.render_ms, 2);
    assert_eq!(second.provenance.ocr_model.as_ref().unwrap().revision, "r");
    let third = &fused.pages[2];
    assert_eq!(third.page_number, 3);
    assert_eq!(third.provenance.source, PageContentSource::Native);
    assert!(third.provenance.ocr_model.is_none());
    assert!(third.provenance.hosted_recommended);
    assert_eq!(
        third.provenance.warnings,
        vec!["page was recommended for OCR but was not processed".to_string()]
    );
}

#[test]
fn blank_ocr_of_a_required_page_recommends_hosted() {
    let natives = vec![native(0, "", true)];
    let run = OcrRun { pages: vec![page(1, vec![], " \n", false)], render_time_ms: 0, ocr_time_ms: 0 };
    let fused = fuse_ocr_pages(&natives, &run).unwrap();
    let p = &fused.pages[0];
    assert!(p.provenance.hosted_recommended);
    assert_eq!(p.provenance.warnings.last().unwrap(), "OCR produced no usable text");
}

#[test]
fn candidate_counts_need_clean_visible_alphanumeric_text() {
    let counts = text_candidate_counts("Invoice total: $420\n\n  \nPaid\n", true).unwrap();
    assert_eq!(counts.alphanumeric_chars, 19);
    assert_eq!(counts.visible_chars, 21);
    assert_eq!(counts.nonempty_lines, 2);
    assert!(text_candidate_counts("Invoice", false).is_none());
    assert!(text_candidate_counts(" \n\t", true).is_none());
    assert!(text_candidate_counts("*** ---", true).is_none());
}

#[test]
fn binding_timings_saturate_each_field() {
    let t = pdf_inspector::fusion::VisionTimings { render_ms: 3, ocr_ms: u64::MAX, assembly_ms: 1 << 32 };
    let b = pdf_inspector::bindings::binding_timings(&t);
    assert_eq!((b.render_ms, b.ocr_ms, b.assembly_ms), (3, u32::MAX, u32::MAX));
}

#[test]
fn clock_readings_saturate_to_u64() {
    assert_eq!(millis_as_u64(42), 42);
    assert_eq!(millis_as_u64(u64::MAX as u128 + 7), u64::MAX);
}

#[test]
fn white_space_matches_char_is_whitespace_everywhere() {
    for c in (0u32..=0x10FFFF).filter_map(char::from_u32) {
        assert_eq!(trim_chars(&[c]).is_empty(), c.is_whitespace(), "{c:?}");
    }
}

#[test]
fn lines_drop_a_carriage_return_only_before_a_line_feed() {
    let text: Vec<char> = "a\r\nb\n\nc\r".chars().collect();
    let lines: Vec<String> = lines_of(&text).into_iter().map(|l| l.into_iter().collect()).collect();
    let expected: Vec<&str> = "a\r\nb\n\nc\r".lines().collect();
    assert_eq!(lines, expected);
    assert_eq!(lines, vec!["a", "b", "", "c\r"]);
}

#[test]
fn png_header_carries_big_endian_dimensions() {
    let width = 300u32;
    let pages = encode_rendered_pages(&vec![RenderedBitmap {
        page: 1,
        width,
        height: 2,
        stride: 900,
        rgb8: true,
        pixels: vec![7; 1800],
    }])
    .unwrap();
    let png = &pages[0].png;
    assert_eq!(&png[0..16], &[137, 80, 78, 71, 13, 10, 26, 10, 0, 0, 0, 13, 73, 72, 68, 82]);
    assert_eq!(&png[16..24], &[0, 0, 1, 44, 0, 0, 0, 2]);
}
