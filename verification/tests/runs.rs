use downsample::error::{ParseError, PipelineError, SampleError, SchemaError};
use downsample::load::{bind, load};
use downsample::filter::filter_canonical;
use downsample::pipeline::{downsample, run};
use downsample::sort::check_ascending;

fn line(chrom1: &str, start1: i64, name: &str) -> String {
    format!("{}\t{}\t{}\tchr1\t1\t2\t{}\t0.5\t+\t-\n", chrom1, start1, start1 + 10, name)
}

/// A hundred rows, eighty of them on canonical chromosomes.
fn hundred_rows() -> Vec<u8> {
    let mut text = String::new();
    for i in 0..100i64 {
        let chrom = if i % 5 == 4 {
            "chrM".to_string()
        } else {
            format!("chr{}", (i * 7) % 22 + 1)
        };
        text.push_str(&line(&chrom, (i * 37) % 101, &format!("row{}", i)));
    }
    text.into_bytes()
}

fn bits(f: f64) -> u64 {
    f.to_bits()
}

#[test]
fn half_of_eighty_canonical_rows_with_a_seed() {
    let input = hundred_rows();
    let table = bind(&load(&input).unwrap()).unwrap();
    assert_eq!(table.len(), 100);
    assert_eq!(filter_canonical(&table).len(), 80);
    let first = downsample(&input, bits(0.5), Some(42)).unwrap();
    let sampled = bind(&load(&first).unwrap()).unwrap();
    assert_eq!(sampled.len(), 40);
    assert!(check_ascending(&sampled));
    for r in &sampled.rows {
        assert!(table.rows.contains(r));
        assert_ne!(r.chrom1, b"chrM".to_vec());
    }
    let second = downsample(&input, bits(0.5), Some(42)).unwrap();
    assert_eq!(first, second);
}

#[test]
fn only_non_canonical_rows_leave_nothing_to_draw() {
    let mut text = String::new();
    for i in 0..12 {
        text.push_str(&line("chrM", i, "mito"));
    }
    let table = bind(&load(text.as_bytes()).unwrap()).unwrap();
    assert_eq!(filter_canonical(&table).len(), 0);
    for f in [0.1, 0.5, 1.0] {
        assert_eq!(
            downsample(text.as_bytes(), bits(f), Some(7)),
            Err(PipelineError::Sample(SampleError::EmptyTable))
        );
    }
}

#[test]
fn the_whole_table_without_a_seed() {
    let input = hundred_rows();
    let out = downsample(&input, bits(1.0), None).unwrap();
    let sampled = bind(&load(&out).unwrap()).unwrap();
    assert_eq!(sampled.len(), 80);
    assert!(check_ascending(&sampled));
    let again = downsample(&input, bits(1.0), None).unwrap();
    assert_eq!(bind(&load(&again).unwrap()).unwrap().len(), 80);
}

#[test]
fn a_fraction_out_of_range_stops_the_run() {
    let input = hundred_rows();
    for f in [1.5, 0.0] {
        assert_eq!(
            downsample(&input, bits(f), Some(42)),
            Err(PipelineError::Sample(SampleError::FractionOutOfRange))
        );
        assert_eq!(
            run(&input, bits(f), None),
            Err(PipelineError::Sample(SampleError::FractionOutOfRange))
        );
    }
}

#[test]
fn every_output_line_has_ten_fields() {
    let out = downsample(&hundred_rows(), bits(0.3), Some(5)).unwrap();
    let text = String::from_utf8(out).unwrap();
    assert!(text.ends_with('\n'));
    assert_eq!(text.lines().count(), 24);
    for l in text.lines() {
        assert_eq!(l.split('\t').count(), 10);
    }
}

#[test]
fn output_rows_ascend_by_chromosome_and_start() {
    let out = downsample(&hundred_rows(), bits(0.9), Some(11)).unwrap();
    let text = String::from_utf8(out).unwrap();
    let keys: Vec<(String, i64)> = text
        .lines()
        .map(|l| {
            let f: Vec<&str> = l.split('\t').collect();
            (f[0].to_string(), f[1].parse().unwrap())
        })
        .collect();
    assert_eq!(keys.len(), 72);
    for pair in keys.windows(2) {
        assert!(pair[0] <= pair[1]);
    }
}

#[test]
fn no_input_row_appears_twice_in_the_output() {
    let out = downsample(&hundred_rows(), bits(0.75), Some(3)).unwrap();
    let text = String::from_utf8(out).unwrap();
    let mut names: Vec<&str> = text.lines().map(|l| l.split('\t').nth(6).unwrap()).collect();
    assert_eq!(names.len(), 60);
    names.sort();
    names.dedup();
    assert_eq!(names.len(), 60);
}

#[test]
fn a_small_run_in_full() {
    let input = b"chr2\t5\t6\tchr1\t1\t2\tb\t1\t+\t-\nchrM\t1\t2\tchr1\t1\t2\tm\t2\t+\t-\nchr1\t9\t10\tchr1\t1\t2\ta\t3\t-\t+\n";
    let out = run(input, bits(1.0), Some(1)).unwrap();
    assert_eq!(
        out,
        b"chr1\t9\t10\tchr1\t1\t2\ta\t3\t-\t+\nchr2\t5\t6\tchr1\t1\t2\tb\t1\t+\t-\n".to_vec()
    );
}

#[test]
fn a_ragged_text_is_a_parse_error() {
    let mut input = hundred_rows();
    input.extend_from_slice(b"chr1\t1\t2\n");
    assert_eq!(
        downsample(&input, bits(0.5), Some(42)),
        Err(PipelineError::Parse(ParseError::RaggedLine { line: 100 }))
    );
    assert_eq!(
        downsample(&input, bits(1.5), Some(42)),
        Err(PipelineError::Parse(ParseError::RaggedLine { line: 100 }))
    );
}

#[test]
fn nine_columns_are_a_schema_error() {
    let input = b"chr1\t1\t2\tchr1\t1\t2\tn\t0\t+\nchr2\t1\t2\tchr1\t1\t2\tn\t0\t+\n";
    assert_eq!(
        downsample(input, bits(0.5), None),
        Err(PipelineError::Schema(SchemaError::ColumnCount { found: 9 }))
    );
}

#[test]
fn a_bad_coordinate_is_a_schema_error() {
    let input = b"chr1\t1\t2\tchr1\t1\t2\tn\t0\t+\t-\nchr2\tone\t2\tchr1\t1\t2\tn\t0\t+\t-\n";
    assert_eq!(
        downsample(input, bits(0.5), None),
        Err(PipelineError::Schema(SchemaError::Coordinate { row: 1 }))
    );
}

#[test]
fn an_empty_input_has_nothing_to_draw_from() {
    assert_eq!(downsample(b"", bits(0.5), None), Err(PipelineError::Sample(SampleError::EmptyTable)));
}

#[test]
fn bytes_that_are_no_text_are_replaced() {
    let input = b"chr1\t1\t2\tchr1\t1\t2\tn\xffm\t0\t+\t-\n";
    let out = downsample(input, bits(1.0), Some(1)).unwrap();
    assert_eq!(out, "chr1\t1\t2\tchr1\t1\t2\tn\u{fffd}m\t0\t+\t-\n".as_bytes().to_vec());
    let kept = run(input, bits(1.0), Some(1)).unwrap();
    assert_eq!(kept, input.to_vec());
}

#[test]
fn text_that_is_utf8_passes_unchanged() {
    let input = "chr1\t1\t2\tchr1\t1\t2\tgène\t0\t+\t-\n".as_bytes();
    assert_eq!(downsample(input, bits(1.0), None).unwrap(), input.to_vec());
}
