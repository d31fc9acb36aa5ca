use pdftrim::collect::{compute_bounding_boxes, parse_ghostscript_output, BoxCollector};
use pdftrim::error::TrimError;
use pdftrim::record::{parse_record, BoundingBox, Tier};

fn lines(text: &str) -> Vec<Vec<u8>> {
    text.lines().map(|l| l.as_bytes().to_vec()).collect()
}

fn coord(text: &[u8]) -> f64 {
    std::str::from_utf8(text).unwrap().parse::<f64>().unwrap()
}

fn reals(boxes: &[BoundingBox]) -> Vec<[f64; 4]> {
    boxes
        .iter()
        .map(|b| [coord(&b.x_min), coord(&b.y_min), coord(&b.x_max), coord(&b.y_max)])
        .collect()
}

fn texts(b: &BoundingBox) -> [String; 4] {
    [
        String::from_utf8(b.x_min.clone()).unwrap(),
        String::from_utf8(b.y_min.clone()).unwrap(),
        String::from_utf8(b.x_max.clone()).unwrap(),
        String::from_utf8(b.y_max.clone()).unwrap(),
    ]
}

#[test]
fn test_parse_ghostscript_output_empty() {
    let input = "";
    let (bboxes, hires_bboxes) = parse_ghostscript_output(&lines(input));
    assert!(bboxes.is_empty());
    assert!(hires_bboxes.is_empty());
}

#[test]
fn test_parse_ghostscript_output_single_bbox() {
    let input = "%%BoundingBox: 10 20 30 40\n";
    let (bboxes, hires_bboxes) = parse_ghostscript_output(&lines(input));
    assert_eq!(reals(&bboxes), vec![[10.0, 20.0, 30.0, 40.0]]);
    assert!(hires_bboxes.is_empty());
}

#[test]
fn test_parse_ghostscript_output_single_hires_bbox() {
    let input = "%%HiResBoundingBox: 10.5 20.5 30.5 40.5\n";
    let (bboxes, hires_bboxes) = parse_ghostscript_output(&lines(input));
    assert!(bboxes.is_empty());
    assert_eq!(reals(&hires_bboxes), vec![[10.5, 20.5, 30.5, 40.5]]);
}

#[test]
fn test_parse_ghostscript_output_multiple_mixed() {
    let input = r#"Processing pages 1 through 2.
Page 1
%%BoundingBox: 133 179 478 678
%%HiResBoundingBox: 133.919996 179.045995 477.395985 677.015979
Page 2
%%BoundingBox: 133 525 478 715
%%HiResBoundingBox: 133.343996 525.869984 477.395985 714.023978
"#;
    let (bboxes, hires_bboxes) = parse_ghostscript_output(&lines(input));
    assert_eq!(
        reals(&bboxes),
        vec![[133.0, 179.0, 478.0, 678.0], [133.0, 525.0, 478.0, 715.0]]
    );
    assert_eq!(
        reals(&hires_bboxes),
        vec![
            [133.919996, 179.045995, 477.395985, 677.015979],
            [133.343996, 525.869984, 477.395985, 714.023978]
        ]
    );
}

#[test]
fn test_parse_ghostscript_output_actual() {
    let input = r#"GPL Ghostscript 9.55.0 (2021-09-27)
Copyright (C) 2021 Artifex Software, Inc.  All rights reserved.
This software is supplied under the GNU AGPLv3 and comes with NO WARRANTY:
see the file COPYING for details.
Processing pages 1 through 1.
Page 1
Loading NimbusSans-Regular font from /usr/share/ghostscript/9.55.0/Resource/Font/NimbusSans-Regular... 4469404 2930106 4289320 2951995 5 done.
%%BoundingBox: 101 99 401 376
%%HiResBoundingBox: 101.999528 99.449997 400.508988 375.515989
"#;
    let (bboxes, hires_bboxes) = parse_ghostscript_output(&lines(input));
    assert_eq!(reals(&bboxes), vec![[101.0, 99.0, 401.0, 376.0]]);
    assert_eq!(
        reals(&hires_bboxes),
        vec![[101.999528, 99.449997, 400.508988, 375.515989],]
    );
}

#[test]
fn empty_stream_finds_no_boxes() {
    let (s, h) = parse_ghostscript_output(&lines(""));
    assert_eq!(compute_bounding_boxes(true, s, h), Err(TrimError::NoBoundingBoxesFound));
}

#[test]
fn standard_only_stream_is_authoritative() {
    let (s, h) = parse_ghostscript_output(&lines("%%BoundingBox: 10 20 30 40\n"));
    let chosen = compute_bounding_boxes(true, s, h).unwrap();
    assert_eq!(reals(&chosen), vec![[10.0, 20.0, 30.0, 40.0]]);
}

#[test]
fn high_precision_only_stream_finds_no_boxes() {
    let (s, h) = parse_ghostscript_output(&lines("%%HiResBoundingBox: 10.5 20.5 30.5 40.5\n"));
    assert_eq!(reals(&h), vec![[10.5, 20.5, 30.5, 40.5]]);
    assert_eq!(compute_bounding_boxes(true, s, h), Err(TrimError::NoBoundingBoxesFound));
}

#[test]
fn two_pages_take_the_high_precision_tier() {
    let input = "Page 1\n%%BoundingBox: 1 2 3 4\nnoise\n%%HiResBoundingBox: 1.5 2.5 3.5 4.5\nPage 2\n%%BoundingBox: 5 6 7 8\nwarning: font\n%%HiResBoundingBox: 5.25 6.25 7.25 8.25\n";
    let (s, h) = parse_ghostscript_output(&lines(input));
    let chosen = compute_bounding_boxes(true, s, h).unwrap();
    assert_eq!(
        reals(&chosen),
        vec![[1.5, 2.5, 3.5, 4.5], [5.25, 6.25, 7.25, 8.25]]
    );
}

#[test]
fn tier_counts_that_differ_are_a_mismatch() {
    let input = "%%BoundingBox: 1 2 3 4\n%%HiResBoundingBox: 1.5 2.5 3.5 4.5\n%%BoundingBox: 5 6 7 8\n";
    let (s, h) = parse_ghostscript_output(&lines(input));
    assert_eq!(
        compute_bounding_boxes(true, s, h),
        Err(TrimError::PrecisionTierMismatch { standard: 2, high_precision: 1 })
    );
}

#[test]
fn failed_tool_run_is_not_trusted() {
    let (s, h) = parse_ghostscript_output(&lines("%%BoundingBox: 10 20 30 40\n"));
    assert_eq!(compute_bounding_boxes(false, s, h), Err(TrimError::ToolExecutionFailed));
}

#[test]
fn record_keeps_the_decimal_text() {
    let (t, b) = parse_record(b"%%HiResBoundingBox: -0.5 .25 3. 40").unwrap();
    assert_eq!(t, Tier::HighPrecision);
    assert_eq!(texts(&b), ["-0.5".to_string(), ".25".to_string(), "3.".to_string(), "40".to_string()]);
}

#[test]
fn record_allows_any_whitespace_after_the_marker() {
    let (t, b) = parse_record(b"%%BoundingBox:\t 1 2 3 4").unwrap();
    assert_eq!(t, Tier::Standard);
    assert_eq!(reals(&[b]), vec![[1.0, 2.0, 3.0, 4.0]]);
    assert!(parse_record(b"%%BoundingBox:1 2 3 4").is_some());
}

#[test]
fn malformed_records_are_ignored() {
    assert!(parse_record(b"%%BoundingBox: 1.2.3 2 3 4").is_none());
    assert!(parse_record(b"%%BoundingBox: . 2 3 4").is_none());
    assert!(parse_record(b"%%BoundingBox: 1 2 3").is_none());
    assert!(parse_record(b"%%BoundingBox: 1 2 3 4 5").is_none());
    assert!(parse_record(b"%%BoundingBox: 1  2 3 4").is_none());
    assert!(parse_record(b"%%BoundingBox: 1 -2- 3 4").is_none());
    assert!(parse_record(b" %%BoundingBox: 1 2 3 4").is_none());
    assert!(parse_record(b"%%boundingbox: 1 2 3 4").is_none());
    assert!(parse_record(b"%%HiResBoundingBox: 1e3 2 3 4").is_none());
    assert!(parse_record(b"").is_none());
}

#[test]
fn record_allows_trailing_whitespace() {
    let (t, b) = parse_record(b"%%BoundingBox: 1 2 3 4 \t").unwrap();
    assert_eq!(t, Tier::Standard);
    assert_eq!(reals(&[b]), vec![[1.0, 2.0, 3.0, 4.0]]);
    let (t, b) = parse_record(b"%%HiResBoundingBox: 1.5 2 3 4\r").unwrap();
    assert_eq!(t, Tier::HighPrecision);
    assert_eq!(texts(&b), ["1.5".to_string(), "2".to_string(), "3".to_string(), "4".to_string()]);
    assert!(parse_record(b"%%BoundingBox: 1 2 3 4 x").is_none());
}

#[test]
fn noise_lines_change_nothing() {
    let plain = "%%BoundingBox: 1 2 3 4\n%%HiResBoundingBox: 1.5 2.5 3.5 4.5\n";
    let noisy = "GPL Ghostscript\n%%BoundingBox: 1 2 3 4\nPage 1\n%%BoundingBox: 1 2 x 4\nLoading font... 5 done.\n%%HiResBoundingBox: 1.5 2.5 3.5 4.5\n\n";
    let (s1, h1) = parse_ghostscript_output(&lines(plain));
    let (s2, h2) = parse_ghostscript_output(&lines(noisy));
    assert_eq!(s1, s2);
    assert_eq!(h1, h2);
    assert_eq!(reals(&s2), vec![[1.0, 2.0, 3.0, 4.0]]);
}

#[test]
fn collector_feeds_line_by_line() {
    let mut c = BoxCollector::new();
    c.feed_line(b"%%BoundingBox: 1 2 3 4");
    c.feed_line(b"Page 2");
    c.feed_line(b"%%HiResBoundingBox: 1.5 2 3 4");
    c.feed_line(b"%%BoundingBox: 5 6 7 8");
    assert_eq!(reals(&c.standard), vec![[1.0, 2.0, 3.0, 4.0], [5.0, 6.0, 7.0, 8.0]]);
    assert_eq!(reals(&c.high_precision), vec![[1.5, 2.0, 3.0, 4.0]]);
}
