use graphite::archive_info::{ArchiveIndex, ArchiveInfo, BucketName};
use graphite::file::WhisperFile;
use graphite::metadata::{aggregation_type_from_id, aggregation_type_to_id, AggregationType};
use graphite::point::{buf_to_point, fill_buf, Point, POINT_SIZE};
use graphite::schema::Schema;
use graphite::WhisperError;

fn minute_archive() -> ArchiveInfo {
    ArchiveInfo {
        offset: 28,
        seconds_per_point: 60,
        points: 5,
        retention: 300,
    }
}

#[test]
fn test_size_in_bytes() {
    let archive_info = ArchiveInfo {
        offset: 28,
        seconds_per_point: 60,
        retention: 60 * 5,
        points: 5,
    };
    assert_eq!(archive_info.size_in_bytes(), 5 * 12);
}

#[test]
fn point_codec_round_trips() {
    let mut buf = vec![0u8; POINT_SIZE];
    let value = 5.5f64.to_bits();
    fill_buf(&mut buf, BucketName(1434598525), value);
    let p = buf_to_point(&buf);
    assert_eq!(
        p,
        Point {
            timestamp: 1434598525,
            value,
        }
    );
}

#[test]
fn point_codec_truncates_wide_timestamps() {
    let mut buf = vec![0u8; POINT_SIZE];
    let ts = 0x1_0000_0005u64;
    fill_buf(&mut buf, BucketName(ts), 0);
    let p = buf_to_point(&buf);
    assert_eq!(p.timestamp, 5);
}

#[test]
fn bucket_is_idempotent() {
    let ai = minute_archive();
    let t = 1434598525u64;
    let b = ai.bucket(t).0;
    assert_eq!(ai.bucket(b).0, b);
    assert!(b <= t && t < b + ai.seconds_per_point);
    assert_eq!(b % ai.seconds_per_point, 0);
}

#[test]
fn seek_wraps_negative_distance_into_range() {
    let ai = minute_archive();
    // The anchor is ahead of the point: two slots back wraps to slot 3.
    let seek = ai.calculate_seek(480, BucketName(600));
    assert_eq!(seek, 28 + 3 * 12);
    assert!(seek >= ai.offset && seek < ai.offset + ai.size_in_bytes());
    // An empty archive seeks to its base slot.
    assert_eq!(ai.calculate_seek(480, BucketName(0)), 28);
    // A point far in the future of the anchor still lands in range.
    let far = ai.calculate_seek(600 + 60 * 1234, BucketName(600));
    assert!(far >= ai.offset && far < ai.offset + ai.size_in_bytes());
}

#[test]
fn read_plan_covers_without_wrap() {
    let ai = minute_archive();
    let plan = ai.read_plan(1, 3);
    assert_eq!(plan, vec![(1u64, 3u64)]);
}

#[test]
fn read_plan_covers_with_wrap() {
    let ai = minute_archive();
    let plan = ai.read_plan(3, 4);
    assert_eq!(plan, vec![(3u64, 2u64), (0u64, 2u64)]);
}

#[test]
fn aggregation_ids_round_trip() {
    for (t, id) in [
        (AggregationType::Average, 1u32),
        (AggregationType::Sum, 2),
        (AggregationType::Last, 3),
        (AggregationType::Max, 4),
        (AggregationType::Min, 5),
    ] {
        assert_eq!(aggregation_type_to_id(&t), id);
        assert_eq!(aggregation_type_from_id(id), t);
    }
    // Unknown ids fall back to Average; Unknown writes as Average's id.
    assert_eq!(aggregation_type_from_id(9), AggregationType::Average);
    assert_eq!(aggregation_type_to_id(&AggregationType::Unknown), 1);
}

fn schema_from(specs: &[&str]) -> Schema {
    let specs: Vec<String> = specs.iter().map(|s| s.to_string()).collect();
    Schema::new_from_retention_specs(specs).unwrap()
}

#[test]
fn creation_layout_matches_formula() {
    let schema = schema_from(&["1m:1h", "1h:1w", "1w:1y"]);
    let file = WhisperFile::new(&schema, AggregationType::Average, 0.5f32.to_bits());
    assert_eq!(file.header.metadata.archive_count, 3);
    let infos = &file.header.archive_infos;
    // header = 16 + 12*3 = 52; then 60, 168, and 52 slots of 12 bytes.
    assert_eq!(infos[0].offset, 52);
    assert_eq!(infos[0].points, 60);
    assert_eq!(infos[1].offset, 52 + 60 * 12);
    assert_eq!(infos[1].points, 168);
    assert_eq!(infos[2].offset, 52 + 60 * 12 + 168 * 12);
    assert_eq!(infos[2].points, 52);
    assert_eq!(
        file.as_bytes().len() as u64,
        52 + 60 * 12 + 168 * 12 + 52 * 12
    );
}

#[test]
fn created_file_reopens() {
    let schema = schema_from(&["1s:1m", "1m:1h"]);
    let file = WhisperFile::new(&schema, AggregationType::Average, 0.5f32.to_bits());
    let max_retention = file.header.metadata.max_retention;
    let bytes = file.into_bytes();
    let reopened = WhisperFile::open(bytes).unwrap();
    assert_eq!(reopened.header.metadata.archive_count, 2);
    assert_eq!(reopened.header.metadata.max_retention, max_retention);
    assert_eq!(
        reopened.header.metadata.aggregation_type,
        AggregationType::Average
    );
    assert_eq!(reopened.header.metadata.x_files_factor, 0.5f32.to_bits());
}

#[test]
fn parses_60_1440() {
    // A file of one archive: 60 seconds per point, 1440 points.
    let schema = schema_from(&["60:1440"]);
    let file = WhisperFile::new(&schema, AggregationType::Average, 0.5f32.to_bits());
    let bytes = file.into_bytes();
    let f = WhisperFile::open(bytes).unwrap();
    assert_eq!(f.header.metadata.aggregation_type, AggregationType::Average);
    assert_eq!(f.header.metadata.max_retention, 86400);
    assert_eq!(f.header.metadata.archive_count, 1);
    let ai = f.header.archive_infos[0];
    assert_eq!(ai.offset, 28);
    assert_eq!(ai.seconds_per_point, 60);
    assert_eq!(ai.points, 1440);
    assert_eq!(ai.retention, 60 * 1440);
}

#[test]
fn header_parses_60_1440() {
    // The same header decoded from raw bytes, threshold bits included.
    let mut bytes = vec![0u8; 28 + 1440 * 12];
    // aggregation 1, max retention 86400, xff 0.5, one archive
    bytes[3] = 1;
    bytes[4..8].copy_from_slice(&86400u32.to_be_bytes());
    bytes[8..12].copy_from_slice(&1056964608u32.to_be_bytes());
    bytes[15] = 1;
    // descriptor: offset 28, 60 seconds per point, 1440 points
    bytes[16..20].copy_from_slice(&28u32.to_be_bytes());
    bytes[20..24].copy_from_slice(&60u32.to_be_bytes());
    bytes[24..28].copy_from_slice(&1440u32.to_be_bytes());
    let f = WhisperFile::open(bytes).unwrap();
    assert_eq!(f.header.metadata.aggregation_type, AggregationType::Average);
    assert_eq!(f.header.metadata.max_retention, 86400);
    assert_eq!(f.header.metadata.x_files_factor, 1056964608);
    assert_eq!(f.header.metadata.archive_count, 1);
    let ai = f.header.archive_infos[0];
    assert_eq!(ai.offset, 28);
    assert_eq!(ai.seconds_per_point, 60);
    assert_eq!(ai.points, 1440);
}

#[test]
fn open_rejects_short_header() {
    let r = WhisperFile::open(vec![0u8; 10]);
    assert!(matches!(r, Err(WhisperError::MalformedHeader)));
}

#[test]
fn open_rejects_truncated_descriptors() {
    // Metadata declaring two archives, but no room for descriptors.
    let mut bytes = vec![0u8; 20];
    bytes[3] = 1;
    bytes[15] = 2;
    let r = WhisperFile::open(bytes);
    assert!(matches!(r, Err(WhisperError::Truncated)));
}

#[test]
fn open_rejects_misplaced_archive() {
    let schema = schema_from(&["1s:1m"]);
    let file = WhisperFile::new(&schema, AggregationType::Average, 0.5f32.to_bits());
    let mut bytes = file.into_bytes();
    // Corrupt the descriptor's offset field.
    bytes[19] = 99;
    let r = WhisperFile::open(bytes);
    assert!(matches!(r, Err(WhisperError::MalformedHeader)));
}

fn aggregate_average(values: &[u64]) -> u64 {
    let sum: f64 = values.iter().map(|v| f64::from_bits(*v)).sum();
    (sum / values.len() as f64).to_bits()
}

/// Writes one point and runs the downsample cascade to completion, the
/// way the shell around the library does, averaging the survivors.
fn update(file: &mut WhisperFile, now: u64, point: Point) -> Result<(), WhisperError> {
    let mut next = file.write(now, point)?;
    while let Some(req) = next {
        let value = aggregate_average(&req.values);
        next = file.write_aggregated(req.archive, req.timestamp, value);
    }
    Ok(())
}

#[test]
fn fresh_write_lands_in_base_slot_only() {
    let schema = schema_from(&["1s:1m", "1m:1h"]);
    let mut file = WhisperFile::new(&schema, AggregationType::Average, 0.5f32.to_bits());
    let coarse_before: Vec<Point> = file.read_points(ArchiveIndex(1), 0, 60);
    let t = 1_000_000_020u64;
    let value = 5.0f64.to_bits();
    let outcome = file.write(t, Point { timestamp: t, value }).unwrap();
    // One sample out of sixty needed is not sufficient: the cascade stops.
    assert!(outcome.is_none());
    let got = file.read_points(ArchiveIndex(0), 0, 1);
    assert_eq!(
        got[0],
        Point {
            timestamp: t,
            value,
        }
    );
    // The coarser archive is untouched.
    let coarse_after: Vec<Point> = file.read_points(ArchiveIndex(1), 0, 60);
    assert_eq!(coarse_before, coarse_after);
}

#[test]
fn full_downsample_averages_the_minute() {
    let schema = schema_from(&["1s:1m", "1m:1h"]);
    let mut file = WhisperFile::new(&schema, AggregationType::Average, 0.5f32.to_bits());
    let t0 = 1_000_000_020u64;
    assert_eq!(t0 % 60, 0);
    for i in 0..60u64 {
        let p = Point {
            timestamp: t0 + i,
            value: (i as f64).to_bits(),
        };
        update(&mut file, t0 + i, p).unwrap();
    }
    // Every second of the minute is present in the fine archive...
    for (i, p) in file.read_points(ArchiveIndex(0), 0, 60).iter().enumerate() {
        assert_eq!(p.timestamp, t0 + i as u64);
        assert_eq!(f64::from_bits(p.value), i as f64);
    }
    // ...and the minute slot holds their average.
    let minute = file.read_points(ArchiveIndex(1), 0, 1);
    assert_eq!(minute[0].timestamp, t0);
    let expected: f64 = (0..60).map(|i| i as f64).sum::<f64>() / 60.0;
    assert_eq!(f64::from_bits(minute[0].value), expected);
    assert_eq!(f64::from_bits(minute[0].value), 29.5);
}

#[test]
fn stale_point_is_rejected_and_file_unchanged() {
    let schema = schema_from(&["1s:1m", "1m:1h"]);
    let mut file = WhisperFile::new(&schema, AggregationType::Average, 0.5f32.to_bits());
    let now = 1_000_000_020u64;
    let max_retention = file.header.metadata.max_retention as u64;
    let before = file.as_bytes().clone();
    let stale = Point {
        timestamp: now - max_retention - 1,
        value: 1.0f64.to_bits(),
    };
    let r = file.write(now, stale);
    assert!(matches!(r, Err(WhisperError::RetentionExceeded)));
    assert_eq!(file.as_bytes(), &before);
}

#[test]
fn anchor_bucket_reads_base_slot() {
    let schema = schema_from(&["1s:1m"]);
    let mut file = WhisperFile::new(&schema, AggregationType::Average, 0.5f32.to_bits());
    assert_eq!(file.anchor_bucket(ArchiveIndex(0)).0, 0);
    let t = 1_000_000_037u64;
    file.write(t, Point { timestamp: t, value: 0 }).unwrap();
    assert_eq!(file.anchor_bucket(ArchiveIndex(0)).0, t);
}

#[test]
fn ring_overwrites_oldest_slot_after_wrap() {
    let schema = schema_from(&["1s:1m"]);
    let mut file = WhisperFile::new(&schema, AggregationType::Average, 0.5f32.to_bits());
    let t0 = 1_000_000_020u64;
    // 70 consecutive seconds into a 60-slot ring: the last 10 wrap onto
    // the first 10 slots.
    for i in 0..70u64 {
        let p = Point {
            timestamp: t0 + i,
            value: (i as f64).to_bits(),
        };
        update(&mut file, t0 + i, p).unwrap();
    }
    let ring = file.read_points(ArchiveIndex(0), 0, 60);
    for (slot, p) in ring.iter().enumerate() {
        let expected = if slot < 10 { slot as u64 + 60 } else { slot as u64 };
        assert_eq!(p.timestamp, t0 + expected);
        assert_eq!(f64::from_bits(p.value), expected as f64);
    }
}

#[test]
fn write_before_the_anchor_wraps_backwards() {
    let schema = schema_from(&["1m:5m"]);
    let mut file = WhisperFile::new(&schema, AggregationType::Average, 0.5f32.to_bits());
    let t0 = 1_000_000_020u64;
    // Anchor the ring at t0, then write a point two slots earlier: it
    // must wrap to slot 3 of the 5-slot ring, not underflow.
    update(&mut file, t0, Point { timestamp: t0, value: 1.0f64.to_bits() }).unwrap();
    update(&mut file, t0, Point { timestamp: t0 - 120, value: 2.0f64.to_bits() }).unwrap();
    let ring = file.read_points(ArchiveIndex(0), 0, 5);
    assert_eq!(ring[0].timestamp, t0);
    assert_eq!(ring[3].timestamp, t0 - 120);
    assert_eq!(f64::from_bits(ring[3].value), 2.0);
}

#[test]
fn zero_threshold_always_propagates() {
    let schema = schema_from(&["1s:1m", "1m:1h"]);
    let mut file = WhisperFile::new(&schema, AggregationType::Average, 0.0f32.to_bits());
    let t0 = 1_000_000_020u64;
    let value = 7.25f64.to_bits();
    // With a zero threshold even a single sample is sufficient.
    let req = file
        .write(t0, Point { timestamp: t0, value })
        .unwrap()
        .expect("one sample should already propagate");
    assert_eq!(req.archive, 1);
    assert_eq!(req.bucket, t0);
    assert_eq!(req.values, vec![value]);
    let next = file.write_aggregated(req.archive, req.timestamp, value);
    assert!(next.is_none());
    let minute = file.read_points(ArchiveIndex(1), 0, 1);
    assert_eq!(minute[0], Point { timestamp: t0, value });
}

#[test]
fn future_point_goes_to_the_finest_archive() {
    let schema = schema_from(&["1s:1m", "1m:1h"]);
    let mut file = WhisperFile::new(&schema, AggregationType::Average, 0.5f32.to_bits());
    let now = 1_000_000_020u64;
    let p = Point {
        timestamp: now + 30,
        value: 3.0f64.to_bits(),
    };
    update(&mut file, now, p).unwrap();
    let anchor = file.anchor_bucket(ArchiveIndex(0));
    assert_eq!(anchor.0, now + 30);
}
