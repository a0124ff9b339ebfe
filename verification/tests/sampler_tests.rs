use coco_border_stats::coco::{Annotation, Bbox};
use coco_border_stats::color::Rgb;
use coco_border_stats::error::SampleError;
use coco_border_stats::sampler::{inset_samples, outset_samples, sample_border_mean, PixelBuffer};

fn uniform(width: u32, height: u32, color: Rgb) -> PixelBuffer {
    let mut data = Vec::new();
    for _ in 0..(width * height) {
        data.push(color.r);
        data.push(color.g);
        data.push(color.b);
    }
    PixelBuffer::from_raw(width, height, data).unwrap()
}

fn annotation_with_bbox(bbox: Bbox) -> Annotation {
    Annotation {
        id: "a1".to_string(),
        category_id: 1,
        image_id: "i1".to_string(),
        bbox,
    }
}

#[test]
fn from_raw_accepts_exactly_three_bytes_per_pixel() {
    assert!(PixelBuffer::from_raw(2, 2, vec![0u8; 12]).is_some());
    assert!(PixelBuffer::from_raw(2, 2, vec![0u8; 11]).is_none());
    assert!(PixelBuffer::from_raw(2, 2, vec![0u8; 13]).is_none());
    assert!(PixelBuffer::from_raw(0, 4, vec![]).is_some());
}

#[test]
fn get_pixel_reads_row_major() {
    let data = vec![
        1, 2, 3, 4, 5, 6, // row 0: (0,0) and (1,0)
        7, 8, 9, 10, 11, 12, // row 1: (0,1) and (1,1)
    ];
    let buf = PixelBuffer::from_raw(2, 2, data).unwrap();
    assert_eq!(buf.width(), 2);
    assert_eq!(buf.height(), 2);
    assert_eq!(buf.get_pixel(0, 0), Rgb { r: 1, g: 2, b: 3 });
    assert_eq!(buf.get_pixel(1, 0), Rgb { r: 4, g: 5, b: 6 });
    assert_eq!(buf.get_pixel(0, 1), Rgb { r: 7, g: 8, b: 9 });
    assert_eq!(buf.get_pixel(1, 1), Rgb { r: 10, g: 11, b: 12 });
}

#[test]
fn inset_ring_sample_count_matches_formula() {
    // For an interior bbox the inset ring samples 2*(ws+1) + 2*(hs+1)
    // pixels, where ws = w-2 and hs = h-2.
    let buf = uniform(8, 8, Rgb { r: 1, g: 1, b: 1 });
    let b = Bbox { x: 2, y: 2, w: 3, h: 4 };
    let samples = inset_samples(&b, &buf);
    assert_eq!(samples.len(), 2 * ((3 - 2) + 1) + 2 * ((4 - 2) + 1));
}

#[test]
fn interior_bbox_uniform_mean() {
    // Both rings fully inside the image.
    let buf = uniform(8, 8, Rgb { r: 9, g: 8, b: 7 });
    let a = annotation_with_bbox(Bbox { x: 2, y: 2, w: 3, h: 3 });
    assert_eq!(sample_border_mean(&a, &buf).unwrap(), Rgb { r: 9, g: 8, b: 7 });
}

#[test]
fn degenerate_bbox_still_samples_corners() {
    // A 4x4 image filled with (255, 0, 0) and bbox [1, 1, 2, 2]: the inset
    // ring has zero extent in both axes but still samples the corner pixel,
    // the outset ring is clipped at the right and bottom edges, and the mean
    // is exactly (255, 0, 0).
    let buf = uniform(4, 4, Rgb { r: 255, g: 0, b: 0 });
    let b = Bbox { x: 1, y: 1, w: 2, h: 2 };
    assert_eq!(inset_samples(&b, &buf).len(), 4);
    let a = annotation_with_bbox(b);
    assert_eq!(sample_border_mean(&a, &buf).unwrap(), Rgb { r: 255, g: 0, b: 0 });
}

#[test]
fn outset_ring_clips_right_and_bottom_silently() {
    // A 4x4 gradient image; bbox [1, 1, 2, 2]. The outset ring rows/columns
    // at y = 4 and x = 4 fall outside and are skipped, so the samples are:
    // the inset corner (2,2) four times, the top row y = 0, and the left
    // column x = 0. Channel sums 150/154/84 over 12 samples, truncated.
    let mut data = Vec::new();
    for y in 0..4u8 {
        for x in 0..4u8 {
            data.push(10 * x + y);
            data.push(x + 10 * y);
            data.push(7);
        }
    }
    let buf = PixelBuffer::from_raw(4, 4, data).unwrap();
    let b = Bbox { x: 1, y: 1, w: 2, h: 2 };
    let outset = outset_samples(&b, &buf);
    assert_eq!(outset.len(), 8);
    let a = annotation_with_bbox(b);
    assert_eq!(sample_border_mean(&a, &buf).unwrap(), Rgb { r: 12, g: 12, b: 7 });
}

#[test]
fn bbox_touching_top_or_left_edge_is_fatal() {
    let buf = uniform(8, 8, Rgb { r: 1, g: 1, b: 1 });
    let at_left = annotation_with_bbox(Bbox { x: 0, y: 1, w: 2, h: 2 });
    assert_eq!(sample_border_mean(&at_left, &buf).unwrap_err(), SampleError::InvalidGeometry);
    let at_top = annotation_with_bbox(Bbox { x: 1, y: 0, w: 2, h: 2 });
    assert_eq!(sample_border_mean(&at_top, &buf).unwrap_err(), SampleError::InvalidGeometry);
}

#[test]
fn degenerate_extent_is_fatal() {
    let buf = uniform(8, 8, Rgb { r: 1, g: 1, b: 1 });
    let narrow = annotation_with_bbox(Bbox { x: 1, y: 1, w: 1, h: 2 });
    assert_eq!(sample_border_mean(&narrow, &buf).unwrap_err(), SampleError::InvalidGeometry);
    let short = annotation_with_bbox(Bbox { x: 1, y: 1, w: 2, h: 1 });
    assert_eq!(sample_border_mean(&short, &buf).unwrap_err(), SampleError::InvalidGeometry);
}

#[test]
fn inset_ring_leaving_the_image_is_fatal() {
    let buf = uniform(4, 4, Rgb { r: 1, g: 1, b: 1 });
    let too_wide = annotation_with_bbox(Bbox { x: 2, y: 1, w: 3, h: 2 });
    assert_eq!(sample_border_mean(&too_wide, &buf).unwrap_err(), SampleError::InvalidGeometry);
    let too_tall = annotation_with_bbox(Bbox { x: 1, y: 2, w: 2, h: 3 });
    assert_eq!(sample_border_mean(&too_tall, &buf).unwrap_err(), SampleError::InvalidGeometry);
}
