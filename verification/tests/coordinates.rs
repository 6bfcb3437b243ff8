use gwas_viewer::coordinates::{CoordinateSystem, RawChromosome, RawCoordinateSystem};
use gwas_viewer::error::DataFormatError;
use gwas_viewer::number::Number;

fn system(chrs: &[(&str, usize)]) -> CoordinateSystem {
    CoordinateSystem::new(
        "test".to_string(),
        chrs.iter().map(|(name, len)| (name.to_string(), *len)).collect(),
    )
}

fn number(value: f64) -> Option<Number> {
    Some(Number::from_bits(value.to_bits()))
}

fn raw_chr(name: &str, len: f64) -> RawChromosome {
    RawChromosome { name: Some(name.to_string()), len: number(len) }
}

#[test]
fn two_chromosomes_with_padding() {
    let cs = system(&[("1", 1000), ("2", 2000)]);
    assert_eq!(
        cs.chr_offsets(100),
        vec![("1".to_string(), 0), ("2".to_string(), 1100)]
    );
    assert_eq!(
        cs.chr_ranges(100),
        vec![("1".to_string(), (0, 1000)), ("2".to_string(), (1100, 3100))]
    );
    assert_eq!(cs.total_length(100), 3100);
    assert_eq!(cs.checked_total_length(100), Some(3100));
}

#[test]
fn empty_system_has_no_extent() {
    let cs = system(&[]);
    assert_eq!(cs.chr_offsets(7), vec![]);
    assert_eq!(cs.chr_ranges(7), vec![]);
    assert_eq!(cs.total_length(7), 0);
    assert_eq!(cs.checked_total_length(7), Some(0));
    assert_eq!(cs.chr_names(), Vec::<String>::new());
    assert_eq!(cs.chr_len("1"), None);
}

#[test]
fn single_chromosome_ends_at_its_length() {
    let cs = system(&[("X", 42)]);
    assert_eq!(cs.chr_offsets(1000), vec![("X".to_string(), 0)]);
    assert_eq!(cs.chr_ranges(1000), vec![("X".to_string(), (0, 42))]);
    assert_eq!(cs.total_length(1000), 42);
}

#[test]
fn offsets_keep_the_given_order() {
    let cs = system(&[("10", 5), ("2", 7), ("1", 11)]);
    let offsets = cs.chr_offsets(3);
    let names: Vec<&str> = offsets.iter().map(|(name, _)| name.as_str()).collect();
    assert_eq!(names, vec!["10", "2", "1"]);
    assert_eq!(cs.chr_names(), vec!["10", "2", "1"]);
    assert_eq!(offsets[1].1, 8);
    assert_eq!(offsets[2].1, 18);
}

#[test]
fn consecutive_offsets_differ_by_length_and_padding() {
    let lengths = [13usize, 0, 250, 1, 99];
    let chrs: Vec<(String, usize)> =
        lengths.iter().enumerate().map(|(i, len)| (format!("chr{}", i), *len)).collect();
    let cs = CoordinateSystem::new("t".to_string(), chrs);
    for padding in [0usize, 1, 50] {
        let offsets = cs.chr_offsets(padding);
        assert_eq!(offsets[0].1, 0);
        for i in 0..lengths.len() - 1 {
            assert_eq!(offsets[i + 1].1 - offsets[i].1, lengths[i] + padding);
            if lengths[i] + padding > 0 {
                assert!(offsets[i].1 < offsets[i + 1].1);
            }
        }
    }
}

#[test]
fn ranges_are_as_long_as_the_chromosomes_and_padding_apart() {
    let lengths = [13usize, 0, 250, 1, 99];
    let chrs: Vec<(String, usize)> =
        lengths.iter().enumerate().map(|(i, len)| (format!("chr{}", i), *len)).collect();
    let cs = CoordinateSystem::new("t".to_string(), chrs);
    for padding in [0usize, 1, 50] {
        let ranges = cs.chr_ranges(padding);
        let offsets = cs.chr_offsets(padding);
        for i in 0..lengths.len() {
            let (start, end) = ranges[i].1;
            assert_eq!(start, offsets[i].1);
            assert_eq!(end - start, lengths[i]);
            if i + 1 < lengths.len() {
                assert_eq!(ranges[i + 1].1 .0 - end, padding);
            }
        }
        assert_eq!(cs.total_length(padding), ranges[lengths.len() - 1].1 .1);
    }
}

#[test]
fn empty_chromosome_without_padding_shares_its_offset() {
    let cs = system(&[("a", 0), ("b", 5)]);
    assert_eq!(cs.chr_offsets(0), vec![("a".to_string(), 0), ("b".to_string(), 0)]);
}

#[test]
fn chr_len_finds_the_first_of_a_name() {
    let cs = system(&[("1", 1000), ("2", 2000), ("1", 3000)]);
    assert_eq!(cs.chr_len("1"), Some(1000));
    assert_eq!(cs.chr_len("2"), Some(2000));
    assert_eq!(cs.chr_len("3"), None);
    assert_eq!(cs.chr_len(""), None);
    assert_eq!(cs.chr_index("1"), Some(0));
    assert_eq!(cs.chr_index("2"), Some(1));
    assert_eq!(cs.chr_index("3"), None);
}

#[test]
fn chrs_and_name_give_back_what_was_put_in() {
    let cs = system(&[("1", 1000), ("2", 2000)]);
    assert_eq!(cs.name(), "test");
    assert_eq!(cs.chrs(), &[("1".to_string(), 1000), ("2".to_string(), 2000)]);
}

#[test]
fn total_length_that_does_not_fit_is_none() {
    let cs = system(&[("1", usize::MAX), ("2", 1)]);
    assert_eq!(cs.checked_total_length(0), None);
    let cs = system(&[("1", usize::MAX - 10), ("2", 5)]);
    assert_eq!(cs.checked_total_length(6), None);
    assert_eq!(cs.checked_total_length(5), Some(usize::MAX));
    let cs = system(&[("1", usize::MAX)]);
    assert_eq!(cs.checked_total_length(usize::MAX), Some(usize::MAX));
}

#[test]
fn parse_js_keeps_the_document_order() {
    let raw = RawCoordinateSystem {
        name: Some("hg38".to_string()),
        chrs: Some(vec![raw_chr("2", 2000.0), raw_chr("1", 1000.0), raw_chr("X", 0.0)]),
    };
    let cs = CoordinateSystem::parse_js(raw).unwrap();
    assert_eq!(cs.name(), "hg38");
    assert_eq!(
        cs.chrs(),
        &[("2".to_string(), 2000), ("1".to_string(), 1000), ("X".to_string(), 0)]
    );
    assert_eq!(cs.total_length(10), 3020);
}

#[test]
fn parse_js_without_name_fails() {
    let raw = RawCoordinateSystem { name: None, chrs: Some(vec![raw_chr("1", 1.0)]) };
    assert_eq!(CoordinateSystem::parse_js(raw).err(), Some(DataFormatError::SystemName));
    let raw = RawCoordinateSystem { name: None, chrs: None };
    assert_eq!(CoordinateSystem::parse_js(raw).err(), Some(DataFormatError::SystemName));
}

#[test]
fn parse_js_without_chromosomes_fails() {
    let raw = RawCoordinateSystem { name: Some("a".to_string()), chrs: None };
    assert_eq!(CoordinateSystem::parse_js(raw).err(), Some(DataFormatError::Chromosomes));
}

#[test]
fn parse_js_reports_the_first_bad_chromosome() {
    let raw = RawCoordinateSystem {
        name: Some("a".to_string()),
        chrs: Some(vec![
            raw_chr("1", 10.0),
            RawChromosome { name: None, len: number(-1.0) },
            raw_chr("3", 0.5),
        ]),
    };
    assert_eq!(
        CoordinateSystem::parse_js(raw).err(),
        Some(DataFormatError::ChromosomeName { index: 1 })
    );
}

#[test]
fn parse_js_rejects_lengths_that_are_no_whole_numbers() {
    for bad in [0.5, -1.0, 1e300, f64::NAN, f64::INFINITY, 1000.000001] {
        let raw = RawCoordinateSystem {
            name: Some("a".to_string()),
            chrs: Some(vec![raw_chr("1", 10.0), raw_chr("2", bad)]),
        };
        assert_eq!(
            CoordinateSystem::parse_js(raw).err(),
            Some(DataFormatError::ChromosomeLength { index: 1 })
        );
    }
    let raw = RawCoordinateSystem {
        name: Some("a".to_string()),
        chrs: Some(vec![RawChromosome { name: Some("1".to_string()), len: None }]),
    };
    assert_eq!(
        CoordinateSystem::parse_js(raw).err(),
        Some(DataFormatError::ChromosomeLength { index: 0 })
    );
}

#[test]
fn parse_js_of_no_chromosomes_is_an_empty_system() {
    let raw = RawCoordinateSystem { name: Some("a".to_string()), chrs: Some(vec![]) };
    let cs = CoordinateSystem::parse_js(raw).unwrap();
    assert_eq!(cs.chrs().len(), 0);
    assert_eq!(cs.total_length(100), 0);
}
