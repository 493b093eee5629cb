//! Bounded in-memory page rasterization: the page request, the repacking of
//! rendered RGB rows, PNG encoding and the output limits.
use image::codecs::png::PngEncoder;
use image::{ExtendedColorType, ImageEncoder, ImageError};
use std::collections::BTreeSet;
use vstd::prelude::*;

verus! {

/// Maximum number of pages per call.
pub const RASTER_MAX_PAGES: usize = 8;

/// Default output resolution in DPI.
pub const RASTER_DEFAULT_DPI: u32 = 150;

/// Hard ceiling for a caller-supplied resolution, in DPI.
pub const RASTER_MAX_DPI: u32 = 300;

/// Maximum pixels of a single rendered page (checked before encoding).
pub const RASTER_MAX_PIXELS_PER_PAGE: u32 = 8_000_000;

/// Maximum total PNG bytes across all returned pages (checked after encoding).
pub const RASTER_MAX_TOTAL_BYTES: usize = 32 * 1024 * 1024;

/// Fail-closed errors of bounded rasterization.
#[derive(Clone, Copy, Debug, PartialEq, Eq, Structural)]
pub enum RasterError {
    /// No pages requested.
    EmptyPages,
    /// More distinct pages than `RASTER_MAX_PAGES`.
    TooManyPages { requested: usize },
    /// Rendered bitmap exceeds `RASTER_MAX_PIXELS_PER_PAGE`.
    PageTooLarge { page: u32, width: u32, height: u32 },
    /// The renderer returned a pixel buffer inconsistent with its dimensions.
    InvalidBuffer,
    /// PNG encoding failed.
    PngEncode,
    /// Total encoded output exceeds `RASTER_MAX_TOTAL_BYTES`.
    TotalBytesExceeded { bytes: usize },
}

/// `pages` with every page after its first occurrence removed.
pub open spec fn first_occurrences(pages: Seq<u32>) -> Seq<u32>
    decreases pages.len(),
{
    if pages.len() == 0 {
        Seq::empty()
    } else {
        let kept = first_occurrences(pages.drop_last());
        if kept.contains(pages.last()) {
            kept
        } else {
            kept.push(pages.last())
        }
    }
}

/// Removing repeated pages keeps exactly the pages that were requested.
pub proof fn lemma_first_occurrences_same_pages(pages: Seq<u32>)
    ensures
        forall|p: u32| #[trigger] first_occurrences(pages).contains(p) <==> pages.contains(p),
    decreases pages.len(),
{
    if pages.len() > 0 {
        let rest = pages.drop_last();
        lemma_first_occurrences_same_pages(rest);
        assert forall|p: u32| #[trigger]
            first_occurrences(pages).contains(p) <==> pages.contains(p) by {
            if pages.contains(p) && p != pages.last() {
                let k = choose|k: int| 0 <= k < pages.len() && pages[k] == p;
                assert(rest[k] == p);
            }
            if rest.contains(p) {
                let k = choose|k: int| 0 <= k < rest.len() && rest[k] == p;
                assert(pages[k] == p);
            }
            if first_occurrences(rest).contains(p) {
                let k = choose|k: int|
                    0 <= k < first_occurrences(rest).len() && first_occurrences(rest)[k] == p;
                if !first_occurrences(rest).contains(pages.last()) {
                    assert(first_occurrences(pages)[k] == p);
                }
            }
            if p == pages.last() {
                assert(pages[pages.len() - 1] == p);
                if !first_occurrences(rest).contains(p) {
                    assert(first_occurrences(pages)[first_occurrences(rest).len() as int] == p);
                }
            }
        }
    }
}

/// No page occurs twice once repeats are removed.
pub proof fn lemma_first_occurrences_distinct(pages: Seq<u32>)
    ensures
        first_occurrences(pages).no_duplicates(),
    decreases pages.len(),
{
    if pages.len() > 0 {
        lemma_first_occurrences_distinct(pages.drop_last());
    }
}

/// `page` occurs in `pages` before position `q`.
pub open spec fn occurs_before(pages: Seq<u32>, page: u32, q: int) -> bool {
    exists|p: int| 0 <= p < q && pages[p] == page
}

/// Removing repeats keeps the order of first occurrences: wherever a later
/// kept page occurs in the request, an earlier kept page occurred before it.
pub proof fn lemma_first_occurrences_order(pages: Seq<u32>)
    ensures
        forall|i: int, j: int, q: int|
            #![trigger first_occurrences(pages)[i], first_occurrences(pages)[j], pages[q]]
            0 <= i < j < first_occurrences(pages).len() && 0 <= q < pages.len() && pages[q]
                == first_occurrences(pages)[j] ==> occurs_before(pages, first_occurrences(pages)[i], q),
    decreases pages.len(),
{
    if pages.len() > 0 {
        let rest = pages.drop_last();
        let kept = first_occurrences(rest);
        let all = first_occurrences(pages);
        lemma_first_occurrences_order(rest);
        lemma_first_occurrences_same_pages(rest);
        assert forall|i: int, j: int, q: int|
            #![trigger all[i], all[j], pages[q]]
            0 <= i < j < all.len() && 0 <= q < pages.len() && pages[q] == all[j]
                implies occurs_before(pages, all[i], q) by {
            assert(all[i] == kept[i]);
            assert(kept.contains(kept[i]));
            assert(rest.contains(all[i]));
            let p0 = choose|p: int| 0 <= p < rest.len() && rest[p] == all[i];
            assert(pages[p0] == all[i]);
            if q < pages.len() - 1 {
                assert(rest[q] == pages[q]);
                if j < kept.len() {
                    assert(all[j] == kept[j]);
                    assert(occurs_before(rest, kept[i], q));
                    let p = choose|p: int| 0 <= p < q && rest[p] == kept[i];
                    assert(pages[p] == all[i]);
                } else {
                    assert(all[j] == pages.last());
                    assert(rest.contains(pages.last()));
                    assert(kept.contains(pages.last()));
                }
            }
        }
    }
}

/// The distinct pages of a request, in first-occurrence order.
pub fn distinct_pages(page_numbers: &Vec<u32>) -> (pages: Vec<u32>)
    ensures
        pages@ == first_occurrences(page_numbers@),
{
    broadcast use vstd::std_specs::btree::group_btree_axioms;

    proof {
        lemma_page_keys_ordered();
    }
    let mut seen: BTreeSet<u32> = BTreeSet::new();
    let mut pages: Vec<u32> = Vec::new();
    let mut i: usize = 0;
    while i < page_numbers.len()
        invariant
            0 <= i <= page_numbers@.len(),
            page_keys_ordered(),
            pages@ == first_occurrences(page_numbers@.take(i as int)),
            forall|p: u32| #[trigger] seen@.contains(p) <==> pages@.contains(p),
        decreases page_numbers.len() - i,
    {
        let page = page_numbers[i];
        assert(page_numbers@.take(i + 1).drop_last() =~= page_numbers@.take(i as int));
        assert(page_numbers@.take(i + 1).last() == page);
        let ghost old_pages = pages@;
        if seen.insert(page) {
            pages.push(page);
            proof {
                assert forall|p: u32| #[trigger] seen@.contains(p) <==> pages@.contains(p) by {
                    if p == page {
                        assert(pages@[pages@.len() - 1] == page);
                    } else {
                        if old_pages.contains(p) {
                            let k = choose|k: int| 0 <= k < old_pages.len() && old_pages[k] == p;
                            assert(pages@[k] == p);
                        }
                        if pages@.contains(p) {
                            let k = choose|k: int| 0 <= k < pages@.len() && pages@[k] == p;
                            assert(old_pages[k] == p);
                        }
                    }
                }
            }
        }
        i = i + 1;
    }
    assert(page_numbers@.take(page_numbers@.len() as int) =~= page_numbers@);
    pages
}

/// Page numbers compare as integers, as the B-tree set needs.
pub open spec fn page_keys_ordered() -> bool {
    vstd::laws_cmp::obeys_cmp::<u32>()
}

proof fn lemma_page_keys_ordered()
    ensures
        page_keys_ordered(),
{
    broadcast use vstd::laws_cmp::group_laws_cmp;

}

/// Validates a page request: at least one page, and at most
/// `RASTER_MAX_PAGES` distinct pages. Returns the distinct pages in
/// first-occurrence order.
pub fn requested_pages(page_numbers: &Vec<u32>) -> (r: Result<Vec<u32>, RasterError>)
    ensures
        page_numbers@.len() == 0 ==> r == Err::<Vec<u32>, RasterError>(RasterError::EmptyPages),
        page_numbers@.len() > 0 && first_occurrences(page_numbers@).len() > RASTER_MAX_PAGES ==> r
            == Err::<Vec<u32>, RasterError>(
            RasterError::TooManyPages {
                requested: first_occurrences(page_numbers@).len() as usize,
            },
        ),
        page_numbers@.len() > 0 && first_occurrences(page_numbers@).len() <= RASTER_MAX_PAGES ==> (
        r matches Ok(pages) && pages@ == first_occurrences(page_numbers@)),
{
    if page_numbers.len() == 0 {
        return Err(RasterError::EmptyPages);
    }
    let pages = distinct_pages(page_numbers);
    if pages.len() > RASTER_MAX_PAGES {
        return Err(RasterError::TooManyPages { requested: pages.len() });
    }
    Ok(pages)
}

/// The active bytes of a bitmap: the first `row_bytes` bytes of each of
/// `height` rows that lie `stride` bytes apart, row after row.
pub open spec fn packed_rows(pixels: Seq<u8>, row_bytes: int, stride: int, height: int) -> Seq<u8> {
    Seq::new(
        (row_bytes * height) as nat,
        |k: int| pixels[(k / row_bytes) * stride + k % row_bytes],
    )
}

/// A renderer's buffer of `len` bytes is consistent with an RGB bitmap of
/// `width` by `height` pixels in rows of `stride` bytes: a row of pixels is
/// addressable and not empty, it fits in a stride, and the buffer holds
/// exactly `height` strides.
pub open spec fn rgb_buffer_consistent(len: nat, width: u32, height: u32, stride: usize) -> bool {
    &&& width * 3 <= usize::MAX
    &&& width > 0
    &&& stride >= width * 3
    &&& stride * height == len
}

proof fn lemma_row_in_buffer(row: int, col: int, row_bytes: int, stride: int, height: int)
    requires
        0 <= row < height,
        0 <= col < row_bytes,
        row_bytes <= stride,
    ensures
        0 <= row * stride + col < stride * height,
        0 <= row * stride,
{
    assert(0 <= row * stride + col < stride * height) by (nonlinear_arith)
        requires
            0 <= row < height,
            0 <= col < row_bytes,
            row_bytes <= stride,
    ;
    assert(0 <= row * stride) by (nonlinear_arith)
        requires
            0 <= row,
            0 <= stride,
    ;
}

proof fn lemma_next_row(row: int, row_bytes: int)
    ensures
        row * row_bytes + row_bytes == (row + 1) * row_bytes,
{
    assert(row * row_bytes + row_bytes == (row + 1) * row_bytes) by (nonlinear_arith);
}

/// Copies the active bytes of each row of a rendered RGB bitmap into one
/// tight buffer, after checking the buffer against the bitmap's size. Row
/// padding is dropped; the stride is never trusted beyond the buffer.
pub fn repack_rgb_rows(pixels: &Vec<u8>, width: u32, height: u32, stride: usize) -> (r: Result<
    Vec<u8>,
    RasterError,
>)
    ensures
        r is Ok <==> rgb_buffer_consistent(pixels@.len(), width, height, stride),
        r matches Err(e) ==> e == RasterError::InvalidBuffer,
        r matches Ok(packed) ==> packed@ == packed_rows(
            pixels@,
            width * 3,
            stride as int,
            height as int,
        ),
{
    let len = pixels.len();
    let row_bytes = match (width as usize).checked_mul(3) {
        Some(row) => row,
        None => return Err(RasterError::InvalidBuffer),
    };
    if row_bytes == 0 || stride < row_bytes {
        return Err(RasterError::InvalidBuffer);
    }
    let total = match stride.checked_mul(height as usize) {
        Some(total) => total,
        None => return Err(RasterError::InvalidBuffer),
    };
    if total != len {
        return Err(RasterError::InvalidBuffer);
    }
    let rows = height as usize;
    let mut packed: Vec<u8> = Vec::new();
    let mut row: usize = 0;
    while row < rows
        invariant
            row_bytes == width * 3,
            0 < row_bytes <= stride,
            stride * rows == pixels@.len(),
            pixels@.len() <= usize::MAX,
            rows == height,
            0 <= row <= rows,
            packed@.len() == row * row_bytes,
            forall|k: int|
                0 <= k < packed@.len() ==> #[trigger] packed@[k] == pixels@[(k / row_bytes as int)
                    * stride + k % row_bytes as int],
        decreases rows - row,
    {
        proof {
            lemma_row_in_buffer(row as int, 0, row_bytes as int, stride as int, rows as int);
        }
        let base = row * stride;
        let mut col: usize = 0;
        while col < row_bytes
            invariant
                row_bytes == width * 3,
                0 < row_bytes <= stride,
                stride * rows == pixels@.len(),
                pixels@.len() <= usize::MAX,
                0 <= row < rows,
                base == row * stride,
                0 <= col <= row_bytes,
                packed@.len() == row * row_bytes + col,
                forall|k: int|
                    0 <= k < packed@.len() ==> #[trigger] packed@[k] == pixels@[(k / row_bytes as int)
                        * stride + k % row_bytes as int],
            decreases row_bytes - col,
        {
            proof {
                lemma_row_in_buffer(row as int, col as int, row_bytes as int, stride as int, rows as int);
                vstd::arithmetic::div_mod::lemma_fundamental_div_mod_converse(
                    row * row_bytes + col,
                    row_bytes as int,
                    row as int,
                    col as int,
                );
            }
            packed.push(pixels[base + col]);
            col = col + 1;
        }
        proof {
            lemma_next_row(row as int, row_bytes as int);
        }
        row = row + 1;
    }
    proof {
        assert(row_bytes * rows == rows * row_bytes) by (nonlinear_arith);
    }
    assert(packed@ =~= packed_rows(pixels@, width * 3, stride as int, height as int));
    Ok(packed)
}

/// `image::ImageError`, carried unopened from the encoder to the check that
/// maps it to `RasterError::PngEncode`.
#[verifier::external_type_specification]
#[verifier::external_body]
pub struct ExImageError(ImageError);

/// The PNG file that `image`'s `PngEncoder`, with its default compression
/// and filter, writes for an 8-bit RGB image of `width` by `height` pixels
/// whose rows are `pixels`; `None` where the encoder reports an error.
pub uninterp spec fn png_rgb8_encoding(pixels: Seq<u8>, width: u32, height: u32) -> Option<
    Seq<u8>,
>;

/// `v` as four bytes, most significant first.
pub open spec fn be_bytes(v: u32) -> Seq<u8> {
    seq![
        (v / 0x100_0000) as u8,
        ((v / 0x1_0000) % 0x100) as u8,
        ((v / 0x100) % 0x100) as u8,
        (v % 0x100) as u8,
    ]
}

/// The first bytes of a PNG file of `width` by `height` pixels: the PNG
/// signature, then the length (13) and type of the IHDR chunk, and the
/// width and height, big-endian.
pub open spec fn png_header(width: u32, height: u32) -> Seq<u8> {
    seq![137u8, 80, 78, 71, 13, 10, 26, 10, 0, 0, 0, 13, 73, 72, 68, 82] + be_bytes(width)
        + be_bytes(height)
}

/// Calls `PngEncoder::new` on an empty buffer and `ImageEncoder::write_image`
/// with `ExtendedColorType::Rgb8`, and hands back the buffer. The encoder
/// asserts that the pixels hold exactly three bytes per pixel, hence the
/// `requires`. The bytes it writes are named, not stated: the result is the
/// named encoding of the arguments, and an error exactly where the name has
/// none. The encoder writes the PNG signature and then the IHDR chunk of
/// the image's width and height before anything else, so a successful
/// result starts with those bytes.
#[verifier::external_body]
fn encode_png_rgb8(pixels: &Vec<u8>, width: u32, height: u32) -> (r: Result<Vec<u8>, ImageError>)
    requires
        pixels@.len() == width * 3 * height,
    ensures
        r is Ok <==> png_rgb8_encoding(pixels@, width, height) is Some,
        r matches Ok(png) ==> png_rgb8_encoding(pixels@, width, height) == Some(png@),
        r matches Ok(png) ==> png_header(width, height).is_prefix_of(png@),
{
    let mut png: Vec<u8> = Vec::new();
    match PngEncoder::new(&mut png).write_image(pixels, width, height, ExtendedColorType::Rgb8) {
        Ok(()) => Ok(png),
        Err(error) => Err(error),
    }
}

/// One page as the renderer returned it: 8-bit pixels in rows of `stride`
/// bytes.
pub struct RenderedBitmap {
    /// 1-indexed page number.
    pub page: u32,
    /// Width in pixels.
    pub width: u32,
    /// Height in pixels.
    pub height: u32,
    /// Bytes from the start of one row to the start of the next.
    pub stride: usize,
    /// The pixel format is 8-bit RGB.
    pub rgb8: bool,
    pub pixels: Vec<u8>,
}

/// One rasterized page: PNG bytes plus true dimensions.
pub struct RasteredPage {
    /// 1-based PDF page number, echoing the (deduplicated) request order.
    pub page_number: u32,
    /// PNG-encoded image bytes.
    pub png: Vec<u8>,
    /// Image width in pixels.
    pub width: u32,
    /// Image height in pixels.
    pub height: u32,
}

/// A page of `width` by `height` pixels is neither empty nor above the
/// per-page pixel limit.
pub open spec fn pixel_count_allowed(width: u32, height: u32) -> bool {
    0 < width * height <= RASTER_MAX_PIXELS_PER_PAGE
}

/// The PNG of one rendered page, or the first check it fails: the pixel
/// format, the pixel limit, the buffer's consistency, the encoding.
pub open spec fn page_png(p: RenderedBitmap) -> Result<Seq<u8>, RasterError> {
    if !p.rgb8 {
        Err(RasterError::InvalidBuffer)
    } else if !pixel_count_allowed(p.width, p.height) {
        Err(RasterError::PageTooLarge { page: p.page, width: p.width, height: p.height })
    } else if !rgb_buffer_consistent(p.pixels@.len(), p.width, p.height, p.stride) {
        Err(RasterError::InvalidBuffer)
    } else {
        match png_rgb8_encoding(
            packed_rows(p.pixels@, p.width * 3, p.stride as int, p.height as int),
            p.width,
            p.height,
        ) {
            Some(png) => Ok(png),
            None => Err(RasterError::PngEncode),
        }
    }
}

/// `total + more`, saturating at `usize::MAX`.
pub open spec fn saturating_total(total: int, more: int) -> int {
    if total + more > usize::MAX {
        usize::MAX as int
    } else {
        total + more
    }
}

/// The PNGs of the rendered pages and their byte total, or the first error
/// in page order: a page's own check, or a running total above
/// `RASTER_MAX_TOTAL_BYTES`.
pub open spec fn raster_output(pages: Seq<RenderedBitmap>) -> Result<(Seq<Seq<u8>>, int), RasterError>
    decreases pages.len(),
{
    if pages.len() == 0 {
        Ok((Seq::empty(), 0))
    } else {
        match raster_output(pages.drop_last()) {
            Err(e) => Err(e),
            Ok((pngs, total)) => match page_png(pages.last()) {
                Err(e) => Err(e),
                Ok(png) => {
                    let running = saturating_total(total, png.len() as int);
                    if running > RASTER_MAX_TOTAL_BYTES {
                        Err(RasterError::TotalBytesExceeded { bytes: running as usize })
                    } else {
                        Ok((pngs.push(png), running))
                    }
                },
            },
        }
    }
}

proof fn lemma_raster_error_extends(pages: Seq<RenderedBitmap>, k: int)
    requires
        0 <= k <= pages.len(),
        raster_output(pages.take(k)) is Err,
    ensures
        raster_output(pages) == raster_output(pages.take(k)),
    decreases pages.len() - k,
{
    if k < pages.len() {
        assert(pages.take(k + 1).drop_last() =~= pages.take(k));
        lemma_raster_error_extends(pages, k + 1);
    } else {
        assert(pages.take(k) =~= pages);
    }
}

/// Checks one rendered page and encodes it as PNG.
fn encode_page(p: &RenderedBitmap) -> (r: Result<Vec<u8>, RasterError>)
    ensures
        match page_png(*p) {
            Ok(png) => r matches Ok(v) && v@ == png,
            Err(e) => r matches Err(f) && f == e,
        },
        r matches Ok(v) ==> png_header(p.width, p.height).is_prefix_of(v@),
{
    if !p.rgb8 {
        return Err(RasterError::InvalidBuffer);
    }
    let allowed = match p.width.checked_mul(p.height) {
        Some(count) => 0 < count && count <= RASTER_MAX_PIXELS_PER_PAGE,
        None => false,
    };
    if !allowed {
        return Err(RasterError::PageTooLarge { page: p.page, width: p.width, height: p.height });
    }
    let packed = match repack_rgb_rows(&p.pixels, p.width, p.height, p.stride) {
        Ok(packed) => packed,
        Err(e) => return Err(e),
    };
    match encode_png_rgb8(&packed, p.width, p.height) {
        Ok(png) => Ok(png),
        Err(_) => Err(RasterError::PngEncode),
    }
}

/// The PNG bytes of `pages`, in order.
pub open spec fn png_views(pages: Seq<RasteredPage>) -> Seq<Seq<u8>> {
    pages.map_values(|p: RasteredPage| p.png@)
}

/// Encodes rendered pages as PNG, in order, failing closed on the first page
/// that is not 8-bit RGB, exceeds the pixel limit, carries an inconsistent
/// buffer or cannot be encoded, and as soon as the PNG bytes together exceed
/// the output limit.
pub fn encode_rendered_pages(rendered: &Vec<RenderedBitmap>) -> (r: Result<
    Vec<RasteredPage>,
    RasterError,
>)
    ensures
        match raster_output(rendered@) {
            Err(e) => r matches Err(f) && f == e,
            Ok((pngs, total)) => r matches Ok(out) && {
                &&& out@.len() == rendered@.len()
                &&& png_views(out@) == pngs
                &&& forall|k: int|
                    0 <= k < out@.len() ==> {
                        &&& (#[trigger] out@[k]).page_number == rendered@[k].page
                        &&& out@[k].width == rendered@[k].width
                        &&& out@[k].height == rendered@[k].height
                        &&& png_header(out@[k].width, out@[k].height).is_prefix_of(out@[k].png@)
                    }
            },
        },
{
    let mut out: Vec<RasteredPage> = Vec::new();
    let mut total: usize = 0;
    let mut i: usize = 0;
    assert(png_views(out@) =~= Seq::<Seq<u8>>::empty());
    assert(rendered@.take(0) =~= Seq::<RenderedBitmap>::empty());
    while i < rendered.len()
        invariant
            0 <= i <= rendered@.len(),
            raster_output(rendered@.take(i as int)) == Ok::<(Seq<Seq<u8>>, int), RasterError>(
                (png_views(out@), total as int),
            ),
            out@.len() == i,
            forall|k: int|
                0 <= k < out@.len() ==> {
                    &&& (#[trigger] out@[k]).page_number == rendered@[k].page
                    &&& out@[k].width == rendered@[k].width
                    &&& out@[k].height == rendered@[k].height
                    &&& png_header(out@[k].width, out@[k].height).is_prefix_of(out@[k].png@)
                },
        decreases rendered.len() - i,
    {
        let page = &rendered[i];
        assert(rendered@.take(i + 1).drop_last() =~= rendered@.take(i as int));
        assert(rendered@.take(i + 1).last() == rendered@[i as int]);
        let png = match encode_page(page) {
            Ok(png) => png,
            Err(e) => {
                proof {
                    lemma_raster_error_extends(rendered@, i + 1);
                }
                return Err(e);
            },
        };
        total = total.saturating_add(png.len());
        if total > RASTER_MAX_TOTAL_BYTES {
            proof {
                lemma_raster_error_extends(rendered@, i + 1);
            }
            return Err(RasterError::TotalBytesExceeded { bytes: total });
        }
        let ghost before = out@;
        out.push(RasteredPage { page_number: page.page, png, width: page.width, height: page.height });
        assert(png_views(out@) =~= png_views(before).push(out@[i as int].png@));
        i = i + 1;
    }
    assert(rendered@.take(rendered@.len() as int) =~= rendered@);
    Ok(out)
}

/// The number of bytes in `pngs` together.
pub open spec fn total_len(pngs: Seq<Seq<u8>>) -> int
    decreases pngs.len(),
{
    if pngs.len() == 0 {
        0
    } else {
        total_len(pngs.drop_last()) + pngs.last().len()
    }
}

/// What a successful rasterization returns stays within the limits: one PNG
/// per rendered page, each page within the per-page pixel limit, and all
/// PNG bytes together within the output limit.
pub proof fn lemma_raster_output_within_limits(pages: Seq<RenderedBitmap>)
    requires
        raster_output(pages) is Ok,
    ensures
        ({
            let (pngs, total) = raster_output(pages)->Ok_0;
            &&& pngs.len() == pages.len()
            &&& total == total_len(pngs)
            &&& total <= RASTER_MAX_TOTAL_BYTES
            &&& forall|k: int|
                0 <= k < pages.len() ==> pixel_count_allowed(
                    #[trigger] pages[k].width,
                    pages[k].height,
                )
        }),
    decreases pages.len(),
{
    if pages.len() > 0 {
        let rest = pages.drop_last();
        lemma_raster_output_within_limits(rest);
        let (pngs, total) = raster_output(pages)->Ok_0;
        let (before, _) = raster_output(rest)->Ok_0;
        assert(pngs.drop_last() =~= before);
        assert forall|k: int| 0 <= k < pages.len() implies pixel_count_allowed(
            #[trigger] pages[k].width,
            pages[k].height,
        ) by {
            if k < pages.len() - 1 {
                assert(rest[k] == pages[k]);
            }
        }
    }
}

} // verus!
