use sprite_sheets::image::extract_rectangle;
use sprite_sheets::image::split_image_by_rectangles;
use sprite_sheets::PixelBuffer;
use sprite_sheets::Rect;

/// A synthetic 1-byte-per-pixel image whose pixel at (x, y) holds y * width + x.
fn coordinate_image(width: usize, height: usize) -> PixelBuffer {
    let mut data = Vec::new();
    for y in 0..height {
        for x in 0..width {
            data.push((y * width + x) as u8);
        }
    }
    PixelBuffer::new(width, height, 1, 1, data)
}

#[test]
fn extracts_single_row_slices() {
    let data: Vec<u8> = vec![0, 1, 2, 3, 4, 5, 6, 7];
    let top_right = extract_rectangle(&data, Rect::new(2, 0, 2, 1), 4, 1);
    assert_eq!(top_right, vec![2, 3]);
    let bottom_left = extract_rectangle(&data, Rect::new(0, 1, 2, 1), 4, 1);
    assert_eq!(bottom_left, vec![4, 5]);
}

#[test]
fn extracts_square_from_corner() {
    let data: Vec<u8> = vec![0, 1, 2, 3, 4, 5, 6, 7];
    let square = extract_rectangle(&data, Rect::new(0, 0, 2, 2), 4, 1);
    assert_eq!(square, vec![0, 1, 4, 5]);
}

#[test]
fn extracted_pixels_match_source_coordinates() {
    let source = coordinate_image(7, 5);
    let rect = Rect::new(2, 1, 3, 4);
    let out = extract_rectangle(&source.data, rect, 7, 1);
    for j in 0..rect.height {
        for i in 0..rect.width {
            assert_eq!(
                out[j * rect.width + i],
                ((rect.y + j) * 7 + rect.x + i) as u8
            );
        }
    }
}

#[test]
fn extracted_length_is_rect_area_times_pixel_size() {
    // Two bytes per pixel: an 3x2-pixel source row-major buffer.
    let data: Vec<u8> = (0..12).collect();
    let out = extract_rectangle(&data, Rect::new(1, 0, 2, 2), 6, 2);
    assert_eq!(out.len(), 2 * 2 * 2);
    assert_eq!(out, vec![2, 3, 4, 5, 8, 9, 10, 11]);

    // The source's total size does not matter, only the rectangle's.
    let big = coordinate_image(16, 16);
    let out = extract_rectangle(&big.data, Rect::new(3, 3, 2, 1), 16, 1);
    assert_eq!(out.len(), 2);
}

#[test]
fn empty_rectangle_extracts_nothing() {
    let data: Vec<u8> = vec![0, 1, 2, 3];
    let out = extract_rectangle(&data, Rect::new(1, 1, 0, 0), 2, 1);
    assert_eq!(out.len(), 0);
}

#[test]
fn split_preserves_rectangle_order() {
    let source = coordinate_image(4, 2);
    let r0 = Rect::new(2, 0, 2, 1);
    let r1 = Rect::new(0, 1, 2, 1);
    let r2 = Rect::new(0, 0, 2, 2);
    let rects = vec![r0, r1, r2];
    let subs = split_image_by_rectangles(&source, &rects);
    assert_eq!(subs.len(), 3);
    assert_eq!(subs[0].data, vec![2, 3]);
    assert_eq!(subs[1].data, vec![4, 5]);
    assert_eq!(subs[2].data, vec![0, 1, 4, 5]);

    // Reordering the rectangles reorders the sub-images identically.
    let reordered = vec![r2, r0, r1];
    let subs2 = split_image_by_rectangles(&source, &reordered);
    assert_eq!(subs2[0].data, subs[2].data);
    assert_eq!(subs2[1].data, subs[0].data);
    assert_eq!(subs2[2].data, subs[1].data);
}

#[test]
fn split_copies_format_metadata() {
    let mut data = Vec::new();
    for _ in 0..24 {
        data.push(9u8);
    }
    // 4x3 pixels, 2 bytes per pixel, one layer.
    let source = PixelBuffer::new(4, 3, 2, 1, data);
    let subs = split_image_by_rectangles(&source, &vec![Rect::new(1, 1, 2, 2)]);
    assert_eq!(subs[0].width, 2);
    assert_eq!(subs[0].height, 2);
    assert_eq!(subs[0].pixel_size, 2);
    assert_eq!(subs[0].depth, 1);
    assert_eq!(subs[0].data.len(), 8);
}
