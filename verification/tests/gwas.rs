use gwas_viewer::coordinates::CoordinateSystem;
use gwas_viewer::error::DataFormatError;
use gwas_viewer::gwas::{ChromosomeBucket, DataPoint, GwasDataChrs, RawRecord, parse_records};
use gwas_viewer::number::Number;

fn n(value: f64) -> Number {
    Number::from_bits(value.to_bits())
}

fn value(number: Number) -> f64 {
    f64::from_bits(number.to_bits())
}

fn system(names: &[&str]) -> CoordinateSystem {
    CoordinateSystem::new(
        "test".to_string(),
        names.iter().map(|name| (name.to_string(), 1000)).collect(),
    )
}

fn point(chr: &str, position: usize, v: f64) -> DataPoint {
    DataPoint { chromosome: chr.to_string(), position, value: n(v) }
}

fn record(chr: &str, ps: f64, p: f64) -> RawRecord {
    RawRecord { chr: Some(chr.to_string()), ps: Some(n(ps)), p_wald: Some(n(p)) }
}

fn positions(bucket: &ChromosomeBucket) -> Vec<usize> {
    bucket.points().iter().map(|p| p.position).collect()
}

fn range(r: Option<(Number, Number)>) -> Option<(f64, f64)> {
    r.map(|(low, high)| (value(low), value(high)))
}

#[test]
fn record_on_unknown_chromosome_is_dropped_and_counted() {
    let cs = system(&["1", "2"]);
    let data = GwasDataChrs::parse_js(&cs, Some(vec![record("3", 10.0, 0.5)])).unwrap();
    assert_eq!(data.skipped(), 1);
    assert!(data.bucket("3").is_none());
    assert!(data.bucket("1").is_none());
    assert!(data.bucket("2").is_none());
    assert_eq!(data.buckets().len(), 2);
    assert_eq!(data.buckets()[0].len(), 0);
    assert_eq!(data.buckets()[1].len(), 0);
    assert_eq!(range(data.value_range()), None);
}

#[test]
fn points_are_partitioned_in_order() {
    let cs = system(&["1", "2", "X"]);
    let data = GwasDataChrs::ingest(
        &cs,
        vec![
            point("2", 5, 0.5),
            point("1", 30, 0.25),
            point("7", 1, 0.001),
            point("2", 3, 1e-8),
            point("1", 10, 0.75),
            point("2", 9, 0.125),
            point("Y", 2, 0.9),
        ],
    );
    assert_eq!(data.skipped(), 2);
    let names: Vec<&str> = data.buckets().iter().map(|b| b.name()).collect();
    assert_eq!(names, vec!["1", "2", "X"]);
    let one = data.bucket("1").unwrap();
    assert_eq!(one.name(), "1");
    assert_eq!(positions(one), vec![30, 10]);
    assert_eq!(one.len(), 2);
    assert_eq!(one.vertex_count(), 6);
    assert_eq!(one.max_position(), 30);
    assert_eq!(range(one.value_range()), Some((0.25, 0.75)));
    let two = data.bucket("2").unwrap();
    assert_eq!(positions(two), vec![5, 3, 9]);
    assert_eq!(two.vertex_count(), 9);
    assert_eq!(two.max_position(), 9);
    assert_eq!(range(two.value_range()), Some((1e-8, 0.5)));
    assert!(data.bucket("X").is_none());
    assert!(data.bucket("7").is_none());
    assert_eq!(range(data.value_range()), Some((1e-8, 0.75)));
    let kept: usize = data.buckets().iter().map(|b| b.len()).sum();
    assert_eq!(kept + data.skipped(), 7);
}

#[test]
fn points_keep_their_chromosome_and_value() {
    let cs = system(&["1"]);
    let data = GwasDataChrs::ingest(&cs, vec![point("1", 4, 0.5), point("1", 8, -2.0)]);
    let bucket = data.bucket("1").unwrap();
    let points = bucket.points();
    assert_eq!(points[0].chromosome, "1");
    assert_eq!(points[0].position, 4);
    assert_eq!(value(points[0].value), 0.5);
    assert_eq!(points[1].position, 8);
    assert_eq!(value(points[1].value), -2.0);
    assert_eq!(range(bucket.value_range()), Some((-2.0, 0.5)));
}

#[test]
fn duplicate_chromosome_names_fill_the_first_bucket() {
    let cs = system(&["1", "1"]);
    let data = GwasDataChrs::ingest(&cs, vec![point("1", 4, 0.5)]);
    assert_eq!(data.buckets()[0].len(), 1);
    assert_eq!(data.buckets()[1].len(), 0);
    assert_eq!(data.skipped(), 0);
}

#[test]
fn empty_dataset_has_empty_buckets() {
    let cs = system(&["1", "2"]);
    let data = GwasDataChrs::parse_js(&cs, Some(vec![])).unwrap();
    assert_eq!(data.skipped(), 0);
    assert_eq!(data.buckets().len(), 2);
    assert!(data.bucket("1").is_none());
    assert_eq!(range(data.value_range()), None);
    let cs = system(&[]);
    let data = GwasDataChrs::ingest(&cs, vec![point("1", 1, 0.5)]);
    assert_eq!(data.skipped(), 1);
    assert_eq!(data.buckets().len(), 0);
}

#[test]
fn values_that_are_no_numbers_leave_the_range_alone() {
    let cs = system(&["1"]);
    let data = GwasDataChrs::ingest(
        &cs,
        vec![point("1", 1, f64::NAN), point("1", 2, 0.5), point("1", 3, f64::NAN)],
    );
    let bucket = data.bucket("1").unwrap();
    assert_eq!(bucket.len(), 3);
    assert_eq!(range(bucket.value_range()), Some((0.5, 0.5)));
    let data = GwasDataChrs::ingest(&cs, vec![point("1", 1, f64::NAN)]);
    assert_eq!(range(data.bucket("1").unwrap().value_range()), None);
    assert_eq!(range(data.value_range()), None);
}

#[test]
fn bucket_tracks_as_points_are_pushed() {
    let mut bucket = ChromosomeBucket::new("5".to_string());
    assert_eq!(bucket.name(), "5");
    assert_eq!(bucket.len(), 0);
    assert_eq!(bucket.vertex_count(), 0);
    assert_eq!(bucket.max_position(), 0);
    assert_eq!(range(bucket.value_range()), None);
    bucket.push(point("5", 7, 0.25));
    assert_eq!(bucket.max_position(), 7);
    assert_eq!(range(bucket.value_range()), Some((0.25, 0.25)));
    bucket.push(point("5", 3, 0.5));
    assert_eq!(bucket.max_position(), 7);
    assert_eq!(range(bucket.value_range()), Some((0.25, 0.5)));
    bucket.push(point("5", 11, 0.125));
    assert_eq!(bucket.max_position(), 11);
    assert_eq!(range(bucket.value_range()), Some((0.125, 0.5)));
    assert_eq!(bucket.vertex_count(), 9);
    assert_eq!(positions(&bucket), vec![7, 3, 11]);
}

#[test]
fn parse_records_reads_every_field() {
    let points = parse_records(Some(vec![record("1", 12.0, 0.5), record("2", 0.0, 1e-9)])).unwrap();
    assert_eq!(points.len(), 2);
    assert_eq!(points[0].chromosome, "1");
    assert_eq!(points[0].position, 12);
    assert_eq!(value(points[0].value), 0.5);
    assert_eq!(points[1].chromosome, "2");
    assert_eq!(points[1].position, 0);
    assert_eq!(value(points[1].value), 1e-9);
}

#[test]
fn dataset_that_is_no_array_fails() {
    assert_eq!(parse_records(None).err(), Some(DataFormatError::Records));
    let cs = system(&["1"]);
    assert_eq!(GwasDataChrs::parse_js(&cs, None).err(), Some(DataFormatError::Records));
}

#[test]
fn first_bad_record_fails_the_dataset() {
    let cs = system(&["1"]);
    let no_chr = RawRecord { chr: None, ps: Some(n(1.0)), p_wald: Some(n(0.5)) };
    assert_eq!(
        GwasDataChrs::parse_js(&cs, Some(vec![record("1", 1.0, 0.5), no_chr])).err(),
        Some(DataFormatError::RecordChromosome { index: 1 })
    );
    let no_ps = RawRecord { chr: Some("1".to_string()), ps: None, p_wald: Some(n(0.5)) };
    assert_eq!(
        GwasDataChrs::parse_js(&cs, Some(vec![no_ps, record("1", 1.0, 0.5)])).err(),
        Some(DataFormatError::RecordPosition { index: 0 })
    );
    let bad_ps = record("1", 1.5, 0.5);
    assert_eq!(
        GwasDataChrs::parse_js(&cs, Some(vec![record("9", 1.0, 0.5), record("1", 2.0, 0.5), bad_ps]))
            .err(),
        Some(DataFormatError::RecordPosition { index: 2 })
    );
    let negative_ps = record("1", -3.0, 0.5);
    assert_eq!(
        parse_records(Some(vec![negative_ps])).err(),
        Some(DataFormatError::RecordPosition { index: 0 })
    );
    let no_p = RawRecord { chr: Some("1".to_string()), ps: Some(n(1.0)), p_wald: None };
    assert_eq!(
        GwasDataChrs::parse_js(&cs, Some(vec![no_p])).err(),
        Some(DataFormatError::RecordValue { index: 0 })
    );
    let nothing = RawRecord { chr: None, ps: None, p_wald: None };
    assert_eq!(
        parse_records(Some(vec![nothing])).err(),
        Some(DataFormatError::RecordChromosome { index: 0 })
    );
}
