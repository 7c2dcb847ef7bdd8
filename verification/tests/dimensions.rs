//! The sizes of images and videos.

use gallery_accel::dimensions::{
    backfill_is_complete, backfill_item_dimensions, batch_start, image_dimensions,
    image_dimensions_from_reader, is_jpeg_path, items_to_measure, media_dimensions, read_prefix,
    remaining_items, video_dimensions, DimensionRow, DimensionSource, SizedItem, VideoError,
    IMAGE_DIMENSION_READ_LIMIT,
};
use image::{ImageFormat, RgbImage};
use std::io::Cursor;

fn encoded(width: u32, height: u32, format: ImageFormat) -> Vec<u8> {
    let mut out = Cursor::new(Vec::new());
    RgbImage::new(width, height).write_to(&mut out, format).unwrap();
    out.into_inner()
}

fn unsized_item(id: i64, media_type: &str) -> SizedItem {
    SizedItem { id, media_type: media_type.to_string(), missing: false, width: 0, height: 0 }
}

#[test]
fn backfill_reads_image_dimensions_and_returns_cursor() {
    let bytes = encoded(640, 360, ImageFormat::Png);
    let mut items = vec![unsized_item(1, "image")];

    let start = batch_start(0, 1);
    assert_eq!(items_to_measure(&items, start), vec![1]);
    let found = image_dimensions_from_reader(&bytes);
    let result = backfill_item_dimensions(&[DimensionRow { id: 1, found }], start.limit);
    assert_eq!(result.updates.len(), 1);
    assert_eq!(remaining_items(&items, &result.updates), 0);
    assert!(backfill_is_complete(0));
    assert_eq!(result.next_after_id, Some(1));
    assert_eq!(result.cursor_done, false);
    assert_eq!(result.updates[0], (1, 640, 360));

    (items[0].width, items[0].height) = (640, 360);
    let start = batch_start(1, 1);
    assert!(items_to_measure(&items, start).is_empty());
    let finished = backfill_item_dimensions(&[], start.limit);
    assert_eq!(finished.updates.len() + finished.failed, 0);
    assert_eq!(finished.cursor_done, true);
}

#[test]
fn batches_go_on_where_the_last_one_ended() {
    let mut items: Vec<SizedItem> = (1..=7).map(|id| unsized_item(id, "video")).collect();
    items[1].missing = true;
    items[3].media_type = "archive".to_string();
    (items[5].width, items[5].height) = (4, 3);
    items[6].width = 4;
    let all = items_to_measure(&items, batch_start(0, 64));
    assert_eq!(all, vec![1, 3, 5, 7]);
    let first = items_to_measure(&items, batch_start(-5, 3));
    assert_eq!(first, vec![1, 3, 5]);
    assert_eq!(items_to_measure(&items, batch_start(5, 3)), vec![7]);
    assert_eq!(remaining_items(&items, &[(3, 1, 1), (6, 1, 1)]), 3);
}

#[test]
fn jpeg_dimension_probe_stays_within_prefix_limit() {
    let mut bytes = encoded(8, 4, ImageFormat::Jpeg);
    bytes.extend(std::iter::repeat(0xA5).take(IMAGE_DIMENSION_READ_LIMIT as usize));

    let prefix = read_prefix(&bytes, IMAGE_DIMENSION_READ_LIMIT as usize);
    assert_eq!(image_dimensions(is_jpeg_path("probe.jpg"), &prefix), Some((8, 4)));
    let dimensions = image_dimensions_from_reader(&prefix).unwrap();

    assert_eq!(dimensions, (8, 4));
    assert!(prefix.len() <= IMAGE_DIMENSION_READ_LIMIT as usize);
}

#[test]
fn only_jpeg_is_probed_by_its_prefix() {
    assert!(is_jpeg_path("a.JPG"));
    assert!(is_jpeg_path("a.b.jpeg"));
    assert!(!is_jpeg_path("a.png"));
    assert!(!is_jpeg_path("jpg"));
    assert_eq!(image_dimensions(false, b"anything"), None);
    assert_eq!(image_dimensions(true, b"no image"), None);
    assert_eq!(image_dimensions_from_reader(b""), None);
}

#[test]
fn sizes_of_videos_are_read_from_the_probe() {
    assert_eq!(video_dimensions(true, "1920x1080\n"), Ok((1920, 1080)));
    assert_eq!(video_dimensions(false, "1920x1080"), Err(VideoError::ProbeFailed));
    assert_eq!(video_dimensions(true, "none"), Err(VideoError::NoDimensions));
    assert_eq!(video_dimensions(true, "ax3"), Err(VideoError::BadWidth));
    assert_eq!(video_dimensions(true, "3x"), Err(VideoError::BadHeight));
    assert_eq!(video_dimensions(true, "3x4x5"), Err(VideoError::BadHeight));
    assert_eq!(media_dimensions("image"), DimensionSource::Image);
    assert_eq!(media_dimensions("video"), DimensionSource::Video);
    assert_eq!(media_dimensions("text"), DimensionSource::Unsupported);
}

#[test]
fn batches_are_bounded_and_failures_are_counted() {
    assert_eq!((batch_start(-5, 0).after_id, batch_start(-5, 0).limit), (0, 1));
    assert_eq!(batch_start(9, 1000).limit, 64);
    let rows = [
        DimensionRow { id: 1, found: Some((3, 4)) },
        DimensionRow { id: 2, found: None },
        DimensionRow { id: 5, found: Some((0, 4)) },
    ];
    let batch = backfill_item_dimensions(&rows, 3);
    assert_eq!(batch.updates, vec![(1, 3, 4)]);
    assert_eq!(batch.failed, 2);
    assert_eq!(batch.next_after_id, Some(5));
    assert!(!batch.cursor_done);
    assert!(!backfill_is_complete(2));
}

#[test]
fn video_errors_have_messages() {
    assert_eq!(VideoError::ProbeFailed.message(), "ffprobe failed");
    assert_eq!(VideoError::NoDimensions.message(), "ffprobe returned no video dimensions");
    assert_eq!(VideoError::BadWidth.message(), "parse video width");
    assert_eq!(VideoError::BadHeight.message(), "parse video height");
}
