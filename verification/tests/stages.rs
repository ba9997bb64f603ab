use downsample::error::SampleError;
use downsample::record::{Record, Table};
use downsample::sample::{row_count, sample, take_rows, MAX_ROWS};
use downsample::sort::{
    arrange, check_ascending, check_rearrangement, insertion_sort, may_precede, sort,
};

fn row(chrom1: &str, start1: i64, name: &str) -> Record {
    Record {
        chrom1: chrom1.as_bytes().to_vec(),
        start1,
        end1: start1 + 1,
        chrom2: b"chr1".to_vec(),
        start2: 0,
        end2: 1,
        name: name.as_bytes().to_vec(),
        score: b".".to_vec(),
        strand1: b"+".to_vec(),
        strand2: b"+".to_vec(),
    }
}

fn numbered(n: usize) -> Table {
    Table { rows: (0..n).map(|i| row("chr1", i as i64, &format!("r{}", i))).collect() }
}

fn bits(f: f64) -> u64 {
    f.to_bits()
}

fn names(t: &Table) -> Vec<String> {
    t.rows.iter().map(|r| String::from_utf8(r.name.clone()).unwrap()).collect()
}

#[test]
fn half_of_ten_rows_is_five_rows() {
    let drawn = sample(&numbered(10), bits(0.5), Some(1)).unwrap();
    assert_eq!(drawn.len(), 5);
}

#[test]
fn no_row_is_drawn_twice() {
    for seed in 0..50 {
        let table = numbered(40);
        let drawn = sample(&table, bits(0.6), Some(seed)).unwrap();
        assert_eq!(drawn.len(), 24);
        let mut seen = names(&drawn);
        seen.sort();
        seen.dedup();
        assert_eq!(seen.len(), 24);
        for r in &drawn.rows {
            assert!(table.rows.contains(r));
        }
    }
}

#[test]
fn rows_that_look_alike_are_still_drawn_once_each() {
    let table = Table { rows: (0..6).map(|_| row("chr1", 1, "same")).collect() };
    let drawn = sample(&table, bits(1.0), Some(3)).unwrap();
    assert_eq!(drawn.len(), 6);
    let drawn = sample(&table, bits(0.5), Some(3)).unwrap();
    assert_eq!(drawn.len(), 3);
}

#[test]
fn the_same_seed_draws_the_same_rows() {
    let table = numbered(200);
    let a = sample(&table, bits(0.25), Some(42)).unwrap();
    let b = sample(&table, bits(0.25), Some(42)).unwrap();
    assert_eq!(a, b);
    assert_eq!(a.len(), 50);
}

#[test]
fn seeds_decide_the_draw() {
    let table = numbered(200);
    let draws: Vec<Table> =
        (0..8).map(|seed| sample(&table, bits(0.25), Some(seed)).unwrap()).collect();
    assert!(draws.iter().any(|d| *d != draws[0]));
}

#[test]
fn a_draw_without_a_seed_has_the_size_asked_for() {
    let drawn = sample(&numbered(30), bits(0.1), None).unwrap();
    assert_eq!(drawn.len(), 3);
}

#[test]
fn the_whole_table_can_be_drawn() {
    let table = numbered(17);
    let drawn = sample(&table, bits(1.0), None).unwrap();
    assert_eq!(drawn.len(), 17);
    let mut seen = names(&drawn);
    seen.sort();
    let mut all = names(&table);
    all.sort();
    assert_eq!(seen, all);
}

#[test]
fn a_small_fraction_of_a_small_table_is_no_row() {
    let drawn = sample(&numbered(5), bits(0.1), Some(9)).unwrap();
    assert_eq!(drawn, Table { rows: vec![] });
}

#[test]
fn a_fraction_out_of_range_is_refused() {
    for f in [0.0, 1.5, -0.25, f64::NAN, f64::INFINITY] {
        assert_eq!(sample(&numbered(10), bits(f), Some(1)), Err(SampleError::FractionOutOfRange));
        assert_eq!(sample(&numbered(0), bits(f), None), Err(SampleError::FractionOutOfRange));
    }
}

#[test]
fn nothing_can_be_drawn_from_an_empty_table() {
    assert_eq!(sample(&numbered(0), bits(0.5), Some(1)), Err(SampleError::EmptyTable));
    assert_eq!(sample(&numbered(0), bits(1.0), None), Err(SampleError::EmptyTable));
}

#[test]
fn row_counts_within_the_engine_limit() {
    assert_eq!(row_count(0), Err(SampleError::EmptyTable));
    assert_eq!(row_count(1), Ok(1));
    assert_eq!(row_count(MAX_ROWS), Ok(0xFFFF_FFFE));
    assert_eq!(row_count(MAX_ROWS + 1), Err(SampleError::TooManyRows));
    assert_eq!(row_count(usize::MAX), Err(SampleError::TooManyRows));
}

#[test]
fn rows_are_taken_by_index() {
    let table = numbered(5);
    let taken = take_rows(&table, &vec![4, 0, 2]).unwrap();
    assert_eq!(names(&taken), vec!["r4", "r0", "r2"]);
    assert_eq!(take_rows(&table, &vec![]).unwrap(), Table { rows: vec![] });
    assert_eq!(names(&take_rows(&table, &vec![1, 1]).unwrap()), vec!["r1", "r1"]);
}

#[test]
fn an_index_beyond_the_table_takes_nothing() {
    assert_eq!(take_rows(&numbered(5), &vec![0, 5]), None);
    assert_eq!(take_rows(&numbered(0), &vec![0]), None);
}

#[test]
fn keys_compare_by_chromosome_and_then_by_start() {
    assert!(may_precede(&row("chr1", 5, "a"), &row("chr1", 5, "b")));
    assert!(may_precede(&row("chr1", 5, "a"), &row("chr1", 6, "b")));
    assert!(!may_precede(&row("chr1", 6, "a"), &row("chr1", 5, "b")));
    assert!(may_precede(&row("chr1", 900, "a"), &row("chr2", 5, "b")));
    assert!(!may_precede(&row("chr2", 5, "a"), &row("chr1", 900, "b")));
    assert!(may_precede(&row("chr10", 1, "a"), &row("chr2", 1, "b")));
    assert!(may_precede(&row("chr1", -3, "a"), &row("chr1", 2, "b")));
    assert!(may_precede(&row("chr1", 9, "a"), &row("chr10", 2, "b")));
}

#[test]
fn ascending_tables_are_recognised() {
    assert!(check_ascending(&Table { rows: vec![] }));
    assert!(check_ascending(&Table { rows: vec![row("chrX", 1, "a")] }));
    assert!(check_ascending(&Table {
        rows: vec![row("chr1", 1, "a"), row("chr1", 1, "b"), row("chr1", 2, "c"), row("chr2", 0, "d")]
    }));
    assert!(!check_ascending(&Table { rows: vec![row("chr1", 2, "a"), row("chr1", 1, "b")] }));
    assert!(!check_ascending(&Table {
        rows: vec![row("chr1", 1, "a"), row("chr2", 1, "b"), row("chr1", 1, "c")]
    }));
}

#[test]
fn rearrangements_are_recognised() {
    assert!(check_rearrangement(&vec![], 0));
    assert!(check_rearrangement(&vec![2, 0, 1], 3));
    assert!(!check_rearrangement(&vec![0, 1], 3));
    assert!(!check_rearrangement(&vec![0, 1, 1], 3));
    assert!(!check_rearrangement(&vec![0, 1, 3], 3));
    assert!(!check_rearrangement(&vec![0, 1, 2, 0], 3));
}

#[test]
fn a_sorting_order_is_accepted() {
    let table = Table { rows: vec![row("chr2", 1, "a"), row("chr1", 7, "b"), row("chr1", 3, "c")] };
    let sorted = arrange(&table, &vec![2, 1, 0]).unwrap();
    assert_eq!(names(&sorted), vec!["c", "b", "a"]);
}

#[test]
fn other_orders_are_rejected() {
    let table = Table { rows: vec![row("chr2", 1, "a"), row("chr1", 7, "b"), row("chr1", 3, "c")] };
    for order in [vec![0, 1, 2], vec![1, 2, 0], vec![2, 1], vec![2, 1, 1], vec![2, 1, 3], vec![2, 1, 0, 0]] {
        assert_eq!(arrange(&table, &order), None);
    }
}

#[test]
fn rows_are_sorted_by_chromosome_and_start() {
    let table = Table {
        rows: vec![
            row("chr2", 50, "a"),
            row("chr10", 7, "b"),
            row("chr1", 30, "c"),
            row("chrX", 1, "d"),
            row("chr1", -5, "e"),
            row("chr2", 4, "f"),
            row("chr1", 1000, "g"),
        ],
    };
    let sorted = sort(&table);
    assert_eq!(names(&sorted), vec!["e", "c", "g", "b", "f", "a", "d"]);
}

#[test]
fn sorting_keeps_every_row_once() {
    let mut rows = Vec::new();
    for i in 0..300u64 {
        let scrambled = i.wrapping_mul(2654435761) % 1000;
        let chrom = format!("chr{}", scrambled % 7 + 1);
        rows.push(row(&chrom, (scrambled / 7) as i64, &format!("r{}", i)));
    }
    let table = Table { rows };
    let sorted = sort(&table);
    assert_eq!(sorted.len(), 300);
    assert!(check_ascending(&sorted));
    let mut before = names(&table);
    before.sort();
    let mut after = names(&sorted);
    after.sort();
    assert_eq!(before, after);
    for pair in sorted.rows.windows(2) {
        assert!((&pair[0].chrom1, pair[0].start1) <= (&pair[1].chrom1, pair[1].start1));
    }
}

#[test]
fn rows_with_equal_keys_all_stay() {
    let table = Table { rows: vec![row("chr1", 5, "a"), row("chr1", 5, "b"), row("chr1", 5, "c")] };
    let sorted = sort(&table);
    let mut seen = names(&sorted);
    seen.sort();
    assert_eq!(seen, vec!["a", "b", "c"]);
}

#[test]
fn an_empty_table_sorts_to_an_empty_table() {
    assert_eq!(sort(&Table { rows: vec![] }), Table { rows: vec![] });
    assert_eq!(insertion_sort(&Table { rows: vec![] }), Table { rows: vec![] });
}

#[test]
fn chromosomes_that_are_no_text_are_sorted_as_bytes() {
    let mut odd = row("chr1", 1, "odd");
    odd.chrom1 = vec![0xff, 0xfe];
    let table = Table { rows: vec![odd, row("chr1", 1, "plain")] };
    assert_eq!(names(&sort(&table)), vec!["plain", "odd"]);
    assert_eq!(names(&insertion_sort(&table)), vec!["plain", "odd"]);
}

#[test]
fn insertion_keeps_rows_with_equal_keys_in_their_order() {
    let table = Table {
        rows: vec![
            row("chr2", 5, "a"),
            row("chr1", 5, "b"),
            row("chr2", 5, "c"),
            row("chr1", 5, "d"),
            row("chr1", 4, "e"),
            row("chr2", 5, "f"),
        ],
    };
    assert_eq!(names(&insertion_sort(&table)), vec!["e", "b", "d", "a", "c", "f"]);
}

#[test]
fn both_sorts_agree_where_no_two_keys_are_equal() {
    let mut rows = Vec::new();
    for i in 0..150u64 {
        let scrambled = i.wrapping_mul(40503) % 151;
        rows.push(row(&format!("chr{}", scrambled % 22 + 1), (scrambled * 31) as i64, &format!("r{}", i)));
    }
    let table = Table { rows };
    assert_eq!(sort(&table), insertion_sort(&table));
}
